//! Laws of formatting: what a new volume looks like when it is opened.

use vstd::prelude::*;
use crate::bytes::{lemma_u16_roundtrip, lemma_u32_roundtrip, spec_u16, spec_u32, u16_bytes, u32_bytes};
use crate::device::DeviceState;
use crate::disk::{encode_fat, page_ceil, sector_ceil, Disk, Tally};
use crate::error::ErrView;
use crate::laws::creation::intact;
use crate::laws::frame::{lemma_fat_before_data, lemma_fat_roundtrip, roomy};
use crate::mkimage::{formatted_bytes, superblock_bytes, MIN_SIZE};
use crate::types::{
    DirentView, FatEntry, DIRENT_SIZE, FATX_MAGIC, FIRST_CLUSTER, SECTOR_SIZE, SUPERBLOCK_SIZE,
    XTAF_MAGIC,
};
use crate::volume::{geometry, mount, valid_cluster_sectors, Mounted};

verus! {

/// Where the table of a new volume comes to lie, a device held zeros or nothing.
pub open spec fn blank_table(start: Seq<u8>, size: u64, is_xtaf: bool, spc: u32) -> bool {
    forall|i: int|
        SUPERBLOCK_SIZE <= i < geometry(0, is_xtaf, size as int, spc).data_offset && i
            < start.len() ==> #[trigger] start[i] == 0
}

/// The table and the root directory of a new volume fit in it.
pub proof fn lemma_layout_fits(size: u64, is_xtaf: bool, spc: u32)
    requires
        size >= MIN_SIZE,
        1 <= spc <= 128,
    ensures
        ({
            let geo = geometry(0, is_xtaf, size as int, spc);
            &&& geo.valid()
            &&& geo.data_offset % 4096 == 0
            &&& geo.data_offset >= SUPERBLOCK_SIZE
            &&& geo.data_offset + geo.cluster_size() <= size
            &&& geo.total_clusters >= 1 ==> geo.data_offset >= 2 * SUPERBLOCK_SIZE
        }),
{
    let geo = geometry(0, is_xtaf, size as int, spc);
    let cs = (spc * SECTOR_SIZE) as int;
    let w = geo.fat_type.width() as int;
    let ts = size / 512 - 8;
    let all = if is_xtaf {
        (size - SUPERBLOCK_SIZE) / cs
    } else {
        (ts * SECTOR_SIZE) / (cs + w)
    };
    let room = (size - SUPERBLOCK_SIZE) as int;
    assert(all * 512 <= room) by {
        if is_xtaf {
            assert(all * 512 <= room) by (nonlinear_arith)
                requires
                    all == room / cs,
                    cs >= 512,
                    room >= 0,
            ;
        } else {
            let have = (ts * SECTOR_SIZE) as int;
            let per = cs + w;
            assert(all * 512 <= have) by (nonlinear_arith)
                requires
                    all == have / per,
                    per >= 512,
                    have >= 0,
            ;
        }
    }
    assert(all >= 0) by {
        if is_xtaf {
            vstd::arithmetic::div_mod::lemma_div_pos_is_pos(room, cs);
        } else {
            vstd::arithmetic::div_mod::lemma_div_pos_is_pos((ts * SECTOR_SIZE) as int, cs + w);
        }
    }
    let total = geo.total_clusters as int;
    assert(total == all % 0x1_0000_0000);
    assert(0 <= total <= all);
    assert(total * w <= all * 4) by (nonlinear_arith)
        requires
            0 <= total <= all,
            0 <= w <= 4,
    ;
    assert(total >= 1 ==> total * w >= 1) by (nonlinear_arith)
        requires
            total >= 0,
            w >= 2,
    ;
    assert(page_ceil(total * w) <= total * w + 4095);
}

/// A volume of at least the smallest size and at most 2 TiB has clusters, whatever their size.
pub proof fn law_ordinary_sizes_have_clusters(size: u64, is_xtaf: bool, spc: u32)
    requires
        MIN_SIZE <= size <= 0x200_0000_0000,
        1 <= spc <= 128,
    ensures
        geometry(0, is_xtaf, size as int, spc).total_clusters >= 1,
{
    let geo = geometry(0, is_xtaf, size as int, spc);
    let cs = (spc * SECTOR_SIZE) as int;
    let w = geo.fat_type.width() as int;
    let (room, per) = if is_xtaf {
        ((size - SUPERBLOCK_SIZE) as int, cs)
    } else {
        ((size / 512 - 8) * SECTOR_SIZE as int, cs + w)
    };
    let all = room / per;
    assert(1 <= all < 0x1_0000_0000) by (nonlinear_arith)
        requires
            all == room / per,
            512 <= per <= 0x1_0004,
            0x10_0000 <= room < 0x200_0000_0000,
    ;
}

/// The bytes of a formatted device, place by place.
pub proof fn lemma_formatted_places(
    start: Seq<u8>,
    size: u64,
    is_xtaf: bool,
    spc: u32,
    volume_id: u32,
)
    requires
        size >= MIN_SIZE,
        1 <= spc <= 128,
        geometry(0, is_xtaf, size as int, spc).total_clusters >= 1,
    ensures
        ({
            let geo = geometry(0, is_xtaf, size as int, spc);
            let b = formatted_bytes(start, size, is_xtaf, spc, volume_id);
            let w = geo.fat_type.width() as int;
            &&& b.len() == size
            &&& b.subrange(0, SUPERBLOCK_SIZE as int) == superblock_bytes(is_xtaf, volume_id, spc)
            &&& b.subrange(SUPERBLOCK_SIZE + w, SUPERBLOCK_SIZE + 2 * w) == encode_fat(
                geo.fat_type,
                is_xtaf,
                FatEntry::EndOfChain,
            )
            &&& blank_table(start, size, is_xtaf, spc) ==> forall|i: int|
                SUPERBLOCK_SIZE + 2 * w <= i < geo.data_offset ==> #[trigger] b[i] == 0
            &&& blank_table(start, size, is_xtaf, spc) ==> forall|i: int|
                SUPERBLOCK_SIZE <= i < SUPERBLOCK_SIZE + w ==> #[trigger] b[i] == 0
            &&& forall|i: int|
                geo.data_offset <= i < geo.data_offset + geo.cluster_size() ==> #[trigger] b[i]
                    == 0xFF
        }),
{
    let geo = geometry(0, is_xtaf, size as int, spc);
    let w = geo.fat_type.width() as int;
    lemma_layout_fits(size, is_xtaf, spc);
    lemma_fat_roundtrip(geo.fat_type, is_xtaf, FatEntry::EndOfChain);
    lemma_u32_roundtrip(is_xtaf, volume_id);
    lemma_u32_roundtrip(is_xtaf, spc);
    lemma_u16_roundtrip(is_xtaf, 1);
    let sb = superblock_bytes(is_xtaf, volume_id, spc);
    assert(sb.len() == SUPERBLOCK_SIZE);
    let e = encode_fat(geo.fat_type, is_xtaf, FatEntry::EndOfChain);
    let b = formatted_bytes(start, size, is_xtaf, spc, volume_id);
    assert(geo.fat_pos(FIRST_CLUSTER) == SUPERBLOCK_SIZE + w);
    assert(b.subrange(0, SUPERBLOCK_SIZE as int) =~= sb);
    assert(b.subrange(SUPERBLOCK_SIZE + w, SUPERBLOCK_SIZE + 2 * w) =~= e);
}

/// The superblock of a formatted device says what it was formatted with.
proof fn lemma_superblock_fields(is_xtaf: bool, volume_id: u32, spc: u32)
    ensures
        ({
            let sb = superblock_bytes(is_xtaf, volume_id, spc);
            &&& sb.subrange(0, 4) == (if is_xtaf { XTAF_MAGIC@ } else { FATX_MAGIC@ })
            &&& (sb.subrange(0, 4) == XTAF_MAGIC@) == is_xtaf
            &&& spec_u32(is_xtaf, sb.subrange(4, 8)) == volume_id
            &&& spec_u32(is_xtaf, sb.subrange(8, 12)) == spc
            &&& spec_u16(is_xtaf, sb.subrange(12, 14)) == 1
        }),
{
    let sb = superblock_bytes(is_xtaf, volume_id, spc);
    lemma_u32_roundtrip(is_xtaf, volume_id);
    lemma_u32_roundtrip(is_xtaf, spc);
    lemma_u16_roundtrip(is_xtaf, 1);
    assert(sb.subrange(0, 4) =~= if is_xtaf { XTAF_MAGIC@ } else { FATX_MAGIC@ });
    assert(FATX_MAGIC@[0] == 0x46 && XTAF_MAGIC@[0] == 0x58);
    assert(sb.subrange(4, 8) =~= u32_bytes(is_xtaf, volume_id));
    assert(sb.subrange(8, 12) =~= u32_bytes(is_xtaf, spc));
    assert(sb.subrange(12, 14) =~= u16_bytes(is_xtaf, 1));
}

/// A device that has been formatted has the length it was given, can be opened, and says what
/// it was formatted with, whatever was on it.
pub proof fn law_formatted_device_opens(
    dev: DeviceState,
    start: Seq<u8>,
    size: u64,
    is_xtaf: bool,
    spc: u32,
    volume_id: u32,
)
    requires
        size >= MIN_SIZE,
        valid_cluster_sectors(spc),
        geometry(0, is_xtaf, size as int, spc).total_clusters >= 1,
        dev.bytes == formatted_bytes(start, size, is_xtaf, spc, volume_id),
    ensures
        dev.bytes.len() == size,
        mount(dev, 0, 0) == Ok::<Mounted, ErrView>(
            Mounted {
                magic: if is_xtaf { XTAF_MAGIC@ } else { FATX_MAGIC@ },
                volume_id,
                fat_copies: 1,
                size: size as nat,
                geo: geometry(0, is_xtaf, size as int, spc),
            },
        ),
{
    lemma_formatted_places(start, size, is_xtaf, spc, volume_id);
    lemma_superblock_fields(is_xtaf, volume_id, spc);
    let sb = dev.bytes.subrange(0, SUPERBLOCK_SIZE as int);
    assert(sb == superblock_bytes(is_xtaf, volume_id, spc));
}

/// The disk that opening a formatted device gives.
pub open spec fn formatted_disk(
    start: Seq<u8>,
    size: u64,
    is_xtaf: bool,
    spc: u32,
    volume_id: u32,
    capacity: nat,
) -> Disk {
    Disk {
        geo: geometry(0, is_xtaf, size as int, spc),
        bytes: formatted_bytes(start, size, is_xtaf, spc, volume_id),
        capacity,
    }
}

/// In a new volume the root directory's entry ends a chain, and all other entries are free.
#[verifier::rlimit(50)]
pub proof fn lemma_formatted_table(
    start: Seq<u8>,
    size: u64,
    is_xtaf: bool,
    spc: u32,
    volume_id: u32,
    capacity: nat,
    c: u32,
)
    requires
        size >= MIN_SIZE,
        1 <= spc <= 128,
        geometry(0, is_xtaf, size as int, spc).total_clusters >= 1,
        c == 1 || roomy(geometry(0, is_xtaf, size as int, spc)) && blank_table(
            start,
            size,
            is_xtaf,
            spc,
        ),
        c <= geometry(0, is_xtaf, size as int, spc).total_clusters,
    ensures
        formatted_disk(start, size, is_xtaf, spc, volume_id, capacity).read_fat(c) == Ok::<
            FatEntry,
            ErrView,
        >(
            if c == 1 {
                FatEntry::EndOfChain
            } else {
                FatEntry::Free
            },
        ),
{
    let d = formatted_disk(start, size, is_xtaf, spc, volume_id, capacity);
    let geo = d.geo;
    let w = geo.fat_type.width() as int;
    lemma_layout_fits(size, is_xtaf, spc);
    lemma_formatted_places(start, size, is_xtaf, spc, volume_id);
    lemma_fat_roundtrip(geo.fat_type, is_xtaf, FatEntry::EndOfChain);
    if c != 1 {
        lemma_fat_before_data(geo, c);
    }
    let pos = geo.fat_pos(c) as int;
    assert(pos + w <= geo.data_offset);
    assert(sector_ceil(pos + w) <= geo.data_offset);
    let raw = d.bytes.subrange(pos, pos + w);
    if c == 1 {
        assert(raw == encode_fat(geo.fat_type, is_xtaf, FatEntry::EndOfChain));
    } else {
        assert forall|i: int| 0 <= i < w implies #[trigger] raw[i] == 0 by {
            assert(raw[i] == d.bytes[pos + i]);
        }
    }
}

/// A new volume is empty, whatever was on the device: its root directory has no entries, and
/// the entry of its cluster in the table ends a chain.
pub proof fn law_formatted_root_is_empty(
    start: Seq<u8>,
    size: u64,
    is_xtaf: bool,
    spc: u32,
    volume_id: u32,
    capacity: nat,
)
    requires
        size >= MIN_SIZE,
        valid_cluster_sectors(spc),
        geometry(0, is_xtaf, size as int, spc).total_clusters >= 1,
    ensures
        formatted_disk(start, size, is_xtaf, spc, volume_id, capacity).entries(FIRST_CLUSTER) == Ok::<
            Seq<DirentView>,
            ErrView,
        >(seq![]),
        formatted_disk(start, size, is_xtaf, spc, volume_id, capacity).read_fat(FIRST_CLUSTER)
            == Ok::<FatEntry, ErrView>(FatEntry::EndOfChain),
{
    let d = formatted_disk(start, size, is_xtaf, spc, volume_id, capacity);
    lemma_layout_fits(size, is_xtaf, spc);
    lemma_formatted_places(start, size, is_xtaf, spc, volume_id);
    lemma_formatted_table(start, size, is_xtaf, spc, volume_id, capacity, 1);
    let one = seq![1u32];
    assert(d.chain(1) == Ok::<Seq<u32>, ErrView>(one));
    let n = DIRENT_SIZE as nat;
    assert(d.geo.cluster_pos(1) == d.geo.data_offset);
    assert(sector_ceil((d.geo.data_offset + n) as int) <= d.geo.data_offset
        + d.geo.cluster_size());
    assert(d.slot(one, 0, 0, n)->Ok_0[0] == d.bytes[d.geo.data_offset as int]);
}

proof fn lemma_formatted_tally(
    start: Seq<u8>,
    size: u64,
    is_xtaf: bool,
    spc: u32,
    volume_id: u32,
    capacity: nat,
    c: int,
)
    requires
        size >= MIN_SIZE,
        1 <= spc <= 128,
        geometry(0, is_xtaf, size as int, spc).total_clusters >= 1,
        roomy(geometry(0, is_xtaf, size as int, spc)),
        blank_table(start, size, is_xtaf, spc),
        2 <= c <= geometry(0, is_xtaf, size as int, spc).total_clusters + 1,
    ensures
        ({
            let d = formatted_disk(start, size, is_xtaf, spc, volume_id, capacity);
            d.tally_from(c) == Ok::<Tally, ErrView>(
                Tally { free: (d.geo.total_clusters + 1 - c) as nat, used: 0, bad: 0 },
            )
        }),
    decreases geometry(0, is_xtaf, size as int, spc).total_clusters + 1 - c,
{
    if c <= geometry(0, is_xtaf, size as int, spc).total_clusters {
        lemma_formatted_table(start, size, is_xtaf, spc, volume_id, capacity, c as u32);
        lemma_formatted_tally(start, size, is_xtaf, spc, volume_id, capacity, c + 1);
    }
}

/// A new volume is intact, and the root directory's cluster is the only one in use.
///
/// Left out are shapes in which the table has no room for the entry of the last cluster, and
/// devices that held something where the table comes to lie. One that was empty did not.
pub proof fn law_formatted_volume_is_free(
    start: Seq<u8>,
    size: u64,
    is_xtaf: bool,
    spc: u32,
    volume_id: u32,
    capacity: nat,
)
    requires
        size >= MIN_SIZE,
        valid_cluster_sectors(spc),
        geometry(0, is_xtaf, size as int, spc).total_clusters >= 1,
        roomy(geometry(0, is_xtaf, size as int, spc)),
        blank_table(start, size, is_xtaf, spc),
    ensures
        ({
            let d = formatted_disk(start, size, is_xtaf, spc, volume_id, capacity);
            &&& intact(d)
            &&& d.tally_from(FIRST_CLUSTER as int) == Ok::<Tally, ErrView>(
                Tally { free: (d.geo.total_clusters - 1) as nat, used: 1, bad: 0 },
            )
        }),
{
    let d = formatted_disk(start, size, is_xtaf, spc, volume_id, capacity);
    lemma_layout_fits(size, is_xtaf, spc);
    assert forall|c: u32| c <= d.geo.total_clusters implies #[trigger] d.read_fat(c) is Ok by {
        lemma_formatted_table(start, size, is_xtaf, spc, volume_id, capacity, c);
    }
    lemma_formatted_table(start, size, is_xtaf, spc, volume_id, capacity, 1);
    lemma_formatted_tally(start, size, is_xtaf, spc, volume_id, capacity, 2);
}

} // verus!
