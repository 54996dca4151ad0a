//! Laws of the format: where everything lies on a volume, and what its bytes mean.
//!
//! These laws are about bytes and numbers alone.

use vstd::prelude::*;
use crate::device::{splice, DeviceState};
use crate::disk::{encode_fat, Disk, Geometry};
use crate::error::{ErrView, IoKind};
use crate::types::{FatEntry, FatType, FATX_MAGIC, XTAF_MAGIC};
use crate::volume::{geometry, mount, valid_cluster_sectors};

verus! {

// ---------------------------------------------------------------------------
// Numbers
// ---------------------------------------------------------------------------

/// The number in the two bytes at `at`.
pub open spec fn short_at(b: Seq<u8>, at: int, big_endian: bool) -> int {
    if big_endian {
        256 * b[at] + b[at + 1]
    } else {
        b[at] + 256 * b[at + 1]
    }
}

/// The number in the four bytes at `at`.
pub open spec fn word_at(b: Seq<u8>, at: int, big_endian: bool) -> int {
    if big_endian {
        65536 * short_at(b, at, true) + short_at(b, at + 2, true)
    } else {
        short_at(b, at, false) + 65536 * short_at(b, at + 2, false)
    }
}

// ---------------------------------------------------------------------------
// Shape
// ---------------------------------------------------------------------------

/// A table has entries of 16 bits if the sectors of the volume, less 268, make up fewer than
/// 65525 clusters, and of 32 bits if they make up as many or more.
pub proof fn law_table_width(base: nat, big_endian: bool, size: int, spc: u32)
    requires
        size >= 4096,
        1 <= spc <= 128,
    ensures
        geometry(base, big_endian, size, spc).fat_type == FatType::Fat16 <==> size / 512 - 268
            < 65525 * spc,
        geometry(base, big_endian, size, spc).fat_type == FatType::Fat32 <==> size / 512 - 268
            >= 65525 * spc,
{
    let t = size / 512 - 8;
    let x = if t > 260 { t - 260 } else { 0 };
    let n = spc as int;
    let q = x / n;
    assert(q >= 65525 <==> x >= 65525 * n) by (nonlinear_arith)
        requires
            q == x / n,
            n >= 1,
            x >= 0,
    ;
}

/// How many clusters a volume has. An XTAF volume has as many as fit behind its superblock. On a
/// FATX volume each cluster takes the place of its entry in the table as well, and only whole
/// sectors count. Of a number that does not fit in 32 bits, the low 32 bits are left.
pub proof fn law_cluster_count(base: nat, big_endian: bool, size: int, spc: u32, n: int)
    requires
        size >= 4096,
        1 <= spc <= 128,
        n >= 0,
        ({
            let width = if size / 512 - 268 < 65525 * spc { 2int } else { 4 };
            let room = if big_endian { size - 4096 } else { size - size % 512 - 4096 };
            let each = if big_endian { 512 * spc } else { 512 * spc + width };
            n * each <= room < (n + 1) * each
        }),
    ensures
        geometry(base, big_endian, size, spc).total_clusters == n % 0x1_0000_0000,
{
    law_table_width(base, big_endian, size, spc);
    let width = if size / 512 - 268 < 65525 * spc { 2int } else { 4 };
    let room = if big_endian { size - 4096 } else { size - size % 512 - 4096 };
    let each = if big_endian { 512 * spc } else { 512 * spc + width };
    assert(room / each == n) by (nonlinear_arith)
        requires
            n * each <= room < (n + 1) * each,
            each > 0,
    ;
    assert((size / 512 - 8) * 512 == size - size % 512 - 4096);
    assert(spc * 512 == 512 * spc);
}

/// Where things lie: the table behind a superblock of 4096 bytes, one entry behind the other;
/// the clusters behind the table, at the next multiple of 4096, starting with number 1.
pub proof fn law_places(base: nat, big_endian: bool, size: int, spc: u32, cluster: u32)
    requires
        size >= 4096,
        1 <= spc <= 128,
        cluster >= 1,
    ensures
        ({
            let geo = geometry(base, big_endian, size, spc);
            let width = if geo.fat_type == FatType::Fat16 { 2int } else { 4 };
            &&& geo.base == base
            &&& geo.big_endian == big_endian
            &&& geo.sectors_per_cluster == spc
            &&& geo.data_offset % 4096 == 0
            &&& 4096 + width * geo.total_clusters <= geo.data_offset < 8192 + width
                * geo.total_clusters
        }),
        law_of_geometry(geometry(base, big_endian, size, spc), cluster),
{
    let geo = geometry(base, big_endian, size, spc);
    law_geometry(geo, cluster);
    let w = geo.fat_type.width() as int;
    let total = geo.total_clusters as int;
    assert(total * w == w * total) by (nonlinear_arith);
    assert(total * w >= 0) by (nonlinear_arith)
        requires
            total >= 0,
            w >= 0,
    ;
    assert(geo.data_offset == 4096 + crate::disk::page_ceil(total * w));
}

/// The parts of a volume of a given shape.
pub open spec fn law_of_geometry(geo: Geometry, cluster: u32) -> bool {
    let width = if geo.fat_type == FatType::Fat16 { 2int } else { 4 };
    &&& geo.fat_pos(cluster) == 4096 + width * cluster
    &&& geo.cluster_pos(cluster) == geo.data_offset + (cluster - 1) * (512
        * geo.sectors_per_cluster)
    &&& geo.cluster_size() == 512 * geo.sectors_per_cluster
    &&& geo.slots() * 64 == 512 * geo.sectors_per_cluster
    &&& geo.in_range(cluster) <==> 1 <= cluster <= geo.total_clusters
}

/// Where the parts of a volume lie follows from its shape.
pub proof fn law_geometry(geo: Geometry, cluster: u32)
    requires
        cluster >= 1,
    ensures
        law_of_geometry(geo, cluster),
{
    let cs = 512 * geo.sectors_per_cluster;
    assert((cluster - 1) * cs >= 0) by (nonlinear_arith)
        requires
            cluster >= 1,
            cs >= 0,
    ;
}

// ---------------------------------------------------------------------------
// Opening
// ---------------------------------------------------------------------------

/// The four bytes at `at` are "FATX", or, for XTAF, "XTAF".
pub open spec fn magic_at(b: Seq<u8>, at: int, xtaf: bool) -> bool {
    if xtaf {
        b[at] == 0x58 && b[at + 1] == 0x54 && b[at + 2] == 0x41 && b[at + 3] == 0x46
    } else {
        b[at] == 0x46 && b[at + 1] == 0x41 && b[at + 2] == 0x54 && b[at + 3] == 0x58
    }
}

pub proof fn lemma_magic(b: Seq<u8>, at: int)
    requires
        0 <= at,
        at + 4 <= b.len(),
    ensures
        b.subrange(at, at + 4) == FATX_MAGIC@ <==> magic_at(b, at, false),
        b.subrange(at, at + 4) == XTAF_MAGIC@ <==> magic_at(b, at, true),
{
    let m = b.subrange(at, at + 4);
    assert(FATX_MAGIC@ =~= seq![0x46u8, 0x41, 0x54, 0x58]);
    assert(XTAF_MAGIC@ =~= seq![0x58u8, 0x54, 0x41, 0x46]);
    assert(m[0] == b[at] && m[1] == b[at + 1] && m[2] == b[at + 2] && m[3] == b[at + 3]);
    if magic_at(b, at, false) {
        assert(m =~= FATX_MAGIC@);
    }
    if magic_at(b, at, true) {
        assert(m =~= XTAF_MAGIC@);
    }
}

/// The number is a power of two up to 128.
pub open spec fn small_power(n: int) -> bool {
    exists|k: nat| k <= 7 && n == #[trigger] vstd::arithmetic::power2::pow2(k)
}

pub proof fn lemma_small_power(n: u32)
    ensures
        valid_cluster_sectors(n) <==> small_power(n as int),
{
    vstd::arithmetic::power2::lemma2_to64();
    if valid_cluster_sectors(n) {
        let k: nat = if n == 1 {
            0
        } else if n == 2 {
            1
        } else if n == 4 {
            2
        } else if n == 8 {
            3
        } else if n == 16 {
            4
        } else if n == 32 {
            5
        } else if n == 64 {
            6
        } else {
            7
        };
        assert(n == vstd::arithmetic::power2::pow2(k));
    }
    if small_power(n as int) {
        let k = choose|k: nat| k <= 7 && n as int == #[trigger] vstd::arithmetic::power2::pow2(k);
        assert(k == 0 || k == 1 || k == 2 || k == 3 || k == 4 || k == 5 || k == 6 || k == 7);
    }
}

/// When a volume can be opened, and what is found: its superblock is on the device, starts with
/// "FATX" or "XTAF", and names a number of sectors in a cluster that is a power of two up to
/// 128; at least a sector follows it. The numbers of an XTAF volume have their highest byte
/// first, those of a FATX volume their lowest.
pub proof fn law_opening(dev: DeviceState, offset: u64, size: u64)
    ensures
        ({
            let b = dev.bytes;
            let at = offset as int;
            let rest = if b.len() > at { b.len() - at } else { 0 };
            let whole = if size == 0 { rest } else { size as int };
            let xtaf = magic_at(b, at, true);
            let sectors = word_at(b, at + 8, xtaf);
            let opened = mount(dev, offset, size);
            &&& whole < 4608 ==> opened == Err::<crate::volume::Mounted, ErrView>(
                ErrView::VolumeTooSmall,
            )
            &&& whole >= 4608 && at + 4096 > b.len() ==> opened == Err::<
                crate::volume::Mounted,
                ErrView,
            >(ErrView::Io(IoKind::UnexpectedEof))
            &&& whole >= 4608 && at + 4096 <= b.len() && !xtaf && !magic_at(b, at, false)
                ==> opened == Err::<crate::volume::Mounted, ErrView>(
                ErrView::BadMagic(b.subrange(at, at + 4)),
            )
            &&& whole >= 4608 && at + 4096 <= b.len() && (xtaf || magic_at(b, at, false))
                && !small_power(sectors) ==> opened == Err::<crate::volume::Mounted, ErrView>(
                ErrView::BadSectorsPerCluster(sectors as u32),
            )
            &&& whole >= 4608 && at + 4096 <= b.len() && (xtaf || magic_at(b, at, false))
                && small_power(sectors) ==> {
                &&& opened is Ok
                &&& opened->Ok_0.magic == b.subrange(at, at + 4)
                &&& opened->Ok_0.volume_id == word_at(b, at + 4, xtaf)
                &&& opened->Ok_0.fat_copies == short_at(b, at + 12, xtaf)
                &&& opened->Ok_0.size == whole
                &&& opened->Ok_0.geo == geometry(offset as nat, xtaf, whole, sectors as u32)
            }
        }),
{
    let b = dev.bytes;
    let at = offset as int;
    if at + 4096 <= b.len() {
        let sb = b.subrange(at, at + 4096);
        lemma_magic(b, at);
        assert(sb.subrange(0, 4) =~= b.subrange(at, at + 4));
        let xtaf = magic_at(b, at, true);
        let s = sb.subrange(8, 12);
        assert(s[0] == b[at + 8] && s[1] == b[at + 9] && s[2] == b[at + 10] && s[3] == b[at + 11]);
        let v = sb.subrange(4, 8);
        assert(v[0] == b[at + 4] && v[1] == b[at + 5] && v[2] == b[at + 6] && v[3] == b[at + 7]);
        let c = sb.subrange(12, 14);
        assert(c[0] == b[at + 12] && c[1] == b[at + 13]);
        assert(word_at(b, at + 8, xtaf) == crate::bytes::spec_u32(xtaf, s));
        lemma_small_power(crate::bytes::spec_u32(xtaf, s));
    }
}

// ---------------------------------------------------------------------------
// Bytes
// ---------------------------------------------------------------------------

/// The first multiple of 512 that is not below `n`.
pub open spec fn sector_end(n: int) -> int {
    if n % 512 == 0 {
        n
    } else {
        n - n % 512 + 512
    }
}

/// Reading gives the bytes that are there, provided that all sectors they lie in are on the
/// device.
pub proof fn law_reading(d: Disk, pos: nat, len: nat)
    ensures
        ({
            let start = (d.geo.base + pos) as int;
            let r = d.read(pos, len);
            &&& r is Ok <==> sector_end(start + len) <= d.bytes.len()
            &&& r is Ok ==> r->Ok_0.len() == len && forall|i: int|
                0 <= i < len ==> #[trigger] r->Ok_0[i] == d.bytes[start + i]
            &&& r is Err ==> r->Err_0 == ErrView::Io(IoKind::UnexpectedEof)
        }),
{
    let start = (d.geo.base + pos) as int;
    assert(sector_end(start + len) == crate::disk::sector_ceil(start + len));
    assert(sector_end(start + len) >= start + len);
}

/// Writing changes the bytes that are written and no others. Whole sectors can be written as
/// far as the device can grow, anything else where it can be read.
pub proof fn law_writing(d: Disk, pos: nat, data: Seq<u8>)
    ensures
        ({
            let start = (d.geo.base + pos) as int;
            let whole = start % 512 == 0 && data.len() % 512 == 0;
            let r = d.write(pos, data);
            &&& whole ==> (r is Ok <==> start + data.len() <= d.capacity)
            &&& !whole ==> (r is Ok <==> sector_end(start + data.len()) <= d.bytes.len())
            &&& whole && r is Err ==> r->Err_0 == ErrView::Io(IoKind::OutOfSpace)
            &&& !whole && r is Err ==> r->Err_0 == ErrView::Io(IoKind::UnexpectedEof)
            &&& r is Ok ==> {
                let d2 = r->Ok_0;
                &&& d2.geo == d.geo
                &&& d2.capacity == d.capacity
                &&& d2.bytes.len() >= d.bytes.len()
                &&& d2.bytes.len() == d.bytes.len() || d2.bytes.len() == start + data.len()
                &&& forall|i: int|
                    0 <= i < data.len() ==> d2.bytes[start + i] == #[trigger] data[i]
                &&& forall|i: int|
                    0 <= i < d.bytes.len() && !(start <= i < start + data.len())
                        ==> #[trigger] d2.bytes[i] == d.bytes[i]
                &&& forall|i: int|
                    d.bytes.len() <= i < start ==> #[trigger] d2.bytes[i] == 0u8
            }
        }),
{
    let start = (d.geo.base + pos) as int;
    assert(sector_end(start + data.len()) == crate::disk::sector_ceil(
        start + data.len(),
    ));
    assert(sector_end(start + data.len()) >= start + data.len());
    let after = splice(d.bytes, start as nat, data);
    assert forall|i: int| 0 <= i < data.len() implies after[start + i] == #[trigger] data[i] by {}
}

// ---------------------------------------------------------------------------
// The table
// ---------------------------------------------------------------------------

/// What an entry of the table means, by its number: 0 is a free cluster, the highest eight
/// numbers of 16 or 28 bits end a chain, the one below them is a bad cluster, and any other is
/// the number of the next cluster.
pub open spec fn meaning(fat_type: FatType, v: int) -> FatEntry {
    let ends = if fat_type == FatType::Fat16 { 0xFFF8int } else { 0x0FFF_FFF8 };
    if v >= ends {
        FatEntry::EndOfChain
    } else if v == ends - 1 {
        FatEntry::Bad
    } else if v == 0 {
        FatEntry::Free
    } else {
        FatEntry::Next(v as u32)
    }
}

/// The entry of a cluster is where it should be, and means what its number says.
pub proof fn law_table_entry(d: Disk, cluster: u32)
    ensures
        ({
            let width = if d.geo.fat_type == FatType::Fat16 { 2int } else { 4 };
            let at = d.geo.base + 4096 + width * cluster;
            let v = if width == 2 {
                short_at(d.bytes, at, d.geo.big_endian)
            } else {
                word_at(d.bytes, at, d.geo.big_endian)
            };
            let r = d.read_fat(cluster);
            &&& r is Ok <==> sector_end(at + width) <= d.bytes.len()
            &&& r is Ok ==> r->Ok_0 == meaning(d.geo.fat_type, v)
            &&& r is Err ==> r->Err_0 == ErrView::Io(IoKind::UnexpectedEof)
        }),
{
    let width: nat = if d.geo.fat_type == FatType::Fat16 { 2 } else { 4 };
    let pos = d.geo.fat_pos(cluster);
    assert(pos == 4096 + width * cluster);
    law_reading(d, pos, width);
    let r = d.read(pos, width);
    if r is Ok {
        let b = r->Ok_0;
        let at = (d.geo.base + pos) as int;
        assert(b[0] == d.bytes[at + 0]);
        assert(b[1] == d.bytes[at + 1]);
        if width == 4 {
            assert(b[2] == d.bytes[at + 2]);
            assert(b[3] == d.bytes[at + 3]);
        }
    }
}

/// The number that is stored for an entry: that which stands for it, and the number of the next
/// cluster for a link, of which a 16-bit entry keeps the low 16 bits.
pub proof fn law_stored_entry(fat_type: FatType, big_endian: bool, entry: FatEntry)
    ensures
        ({
            let b = encode_fat(fat_type, big_endian, entry);
            let wide = fat_type == FatType::Fat32;
            let v = if wide { word_at(b, 0, big_endian) } else { short_at(b, 0, big_endian) };
            &&& b.len() == (if wide { 4nat } else { 2 })
            &&& entry == FatEntry::Free ==> v == 0
            &&& entry == FatEntry::EndOfChain ==> v == (if wide { 0x0FFF_FFF8int } else { 0xFFF8 })
            &&& entry == FatEntry::Bad ==> v == (if wide { 0x0FFF_FFF7int } else { 0xFFF7 })
            &&& entry matches FatEntry::Next(c) ==> v == (if wide {
                c as int
            } else {
                c as int % 0x1_0000
            })
        }),
{
    crate::laws::frame::lemma_fat_roundtrip(fat_type, big_endian, entry);
    let b = encode_fat(fat_type, big_endian, entry);
    match fat_type {
        FatType::Fat16 => {
            let n = crate::disk::fat_value(fat_type, entry) as u16;
            crate::bytes::lemma_u16_roundtrip(big_endian, n);
            assert(short_at(b, 0, big_endian) == n);
        },
        FatType::Fat32 => {
            let n = crate::disk::fat_value(fat_type, entry);
            crate::bytes::lemma_u32_roundtrip(big_endian, n);
            assert(word_at(b, 0, big_endian) == n);
        },
    }
}

/// Setting the entry of a cluster changes the bytes of that entry.
pub proof fn law_entry_set(d: Disk, cluster: u32, entry: FatEntry)
    ensures
        ({
            let width = if d.geo.fat_type == FatType::Fat16 { 2int } else { 4 };
            d.write_fat(cluster, entry) == d.write(
                (4096 + width * cluster) as nat,
                encode_fat(d.geo.fat_type, d.geo.big_endian, entry),
            )
        }),
{
    let width = if d.geo.fat_type == FatType::Fat16 { 2int } else { 4 };
    assert(d.geo.fat_pos(cluster) == 4096 + width * cluster);
}

/// A cluster of the volume holds the bytes at its place.
pub proof fn law_cluster_bytes(d: Disk, cluster: u32)
    requires
        1 <= d.geo.sectors_per_cluster,
    ensures
        ({
            let cs = 512 * d.geo.sectors_per_cluster;
            let at = d.geo.base + d.geo.data_offset + (cluster - 1) * cs;
            let r = d.read_cluster(cluster);
            &&& !(1 <= cluster <= d.geo.total_clusters) ==> r == Err::<Seq<u8>, ErrView>(
                ErrView::ClusterOutOfRange(cluster, d.geo.total_clusters),
            )
            &&& 1 <= cluster <= d.geo.total_clusters ==> {
                &&& r is Ok <==> sector_end(at + cs) <= d.bytes.len()
                &&& r is Ok ==> r->Ok_0 == d.bytes.subrange(at, at + cs)
            }
        }),
{
    if 1 <= cluster <= d.geo.total_clusters {
        law_geometry(d.geo, cluster);
        let cs = d.geo.cluster_size();
        let pos = d.geo.cluster_pos(cluster);
        assert(d.geo.in_range(cluster));
        law_reading(d, pos, cs);
        let r = d.read(pos, cs);
        let at = (d.geo.base + pos) as int;
        if r is Ok {
            assert forall|i: int| 0 <= i < cs implies r->Ok_0[i] == d.bytes.subrange(
                at,
                at + cs,
            )[i] by {
                assert(r->Ok_0[i] == d.bytes[at + i]);
            }
            assert(r->Ok_0 =~= d.bytes.subrange(at, at + cs));
        }
    }
}

} // verus!
