//! What writes leave alone: lemmas about how the operations of the model act on the file
//! allocation table and on the contents of clusters.

use vstd::prelude::*;
use crate::bytes::{lemma_u16_roundtrip, lemma_u32_roundtrip};
use crate::disk::{decode_fat, encodable, encode_fat, fat_value, sector_ceil, Disk, Geometry};
use crate::error::ErrView;
use crate::types::{FatEntry, FatType, SUPERBLOCK_SIZE};

verus! {

/// The file allocation table has room for the entry of every cluster, so that the table and
/// the clusters do not overlap. (The number of the last cluster is the number of clusters,
/// and the table has room for as many entries; entry 0 stands for no cluster.)
pub open spec fn roomy(geo: Geometry) -> bool {
    (geo.total_clusters + 1) * geo.fat_type.width() <= geo.data_offset - SUPERBLOCK_SIZE
}

/// `len` bytes of a cluster from `at` on.
pub open spec fn part(d: Disk, cluster: u32, at: int, len: nat) -> Result<Seq<u8>, ErrView> {
    d.read((d.geo.cluster_pos(cluster) + at) as nat, len)
}

/// Between `d` and `d2` nothing has changed but entries of the file allocation table for
/// clusters in `fats`, and the contents of clusters in `data`.
pub open spec fn touches(d: Disk, d2: Disk, fats: Set<u32>, data: Set<u32>) -> bool {
    &&& d2.geo == d.geo
    &&& d2.capacity == d.capacity
    &&& d2.bytes.len() >= d.bytes.len()
    &&& forall|c: u32|
        c <= d.geo.total_clusters && !fats.contains(c) && d.read_fat(c) is Ok
            ==> #[trigger] d2.read_fat(c) == d.read_fat(c)
    &&& forall|c: u32, at: int, len: nat|
        #![trigger part(d2, c, at, len)]
        d.geo.in_range(c) && !data.contains(c) && 0 <= at && at + len <= d.geo.cluster_size()
            && part(d, c, at, len) is Ok ==> part(d2, c, at, len) == part(d, c, at, len)
}

pub proof fn lemma_touches_refl(d: Disk)
    ensures
        touches(d, d, Set::empty(), Set::empty()),
{
}

/// Two steps touch what either of them touches.
pub proof fn lemma_touches_trans(
    d: Disk,
    d1: Disk,
    d2: Disk,
    f1: Set<u32>,
    c1: Set<u32>,
    f2: Set<u32>,
    c2: Set<u32>,
)
    requires
        touches(d, d1, f1, c1),
        touches(d1, d2, f2, c2),
    ensures
        touches(d, d2, f1.union(f2), c1.union(c2)),
{
    assert forall|c: u32|
        c <= d.geo.total_clusters && !f1.union(f2).contains(c) && d.read_fat(c)
            is Ok implies #[trigger] d2.read_fat(c) == d.read_fat(c) by {
        assert(d1.read_fat(c) == d.read_fat(c));
    }
    assert forall|c: u32, at: int, len: nat|
        #![trigger part(d2, c, at, len)]
        d.geo.in_range(c) && !c1.union(c2).contains(c) && 0 <= at && at + len
            <= d.geo.cluster_size() && part(d, c, at, len) is Ok implies part(d2, c, at, len)
        == part(d, c, at, len) by {
        assert(part(d1, c, at, len) == part(d, c, at, len));
    }
}

/// More may be said to be touched than is.
pub proof fn lemma_touches_widen(
    d: Disk,
    d2: Disk,
    f1: Set<u32>,
    c1: Set<u32>,
    f2: Set<u32>,
    c2: Set<u32>,
)
    requires
        touches(d, d2, f1, c1),
        f1.subset_of(f2),
        c1.subset_of(c2),
    ensures
        touches(d, d2, f2, c2),
{
}

// ---------------------------------------------------------------------------
// Bytes
// ---------------------------------------------------------------------------

/// A write leaves alone what lies beside it.
pub proof fn lemma_write_frame(d: Disk, pos: nat, data: Seq<u8>, p: nat, n: nat)
    requires
        d.write(pos, data) is Ok,
        p + n <= pos || pos + data.len() <= p,
    ensures
        ({
            let d2 = d.write(pos, data)->Ok_0;
            &&& d2.geo == d.geo
            &&& d2.capacity == d.capacity
            &&& d2.bytes.len() >= d.bytes.len()
            &&& d.read(p, n) is Ok ==> d2.read(p, n) == d.read(p, n)
            &&& d2.bytes.len() == d.bytes.len() ==> d2.read(p, n) == d.read(p, n)
        }),
{
    let d2 = d.write(pos, data)->Ok_0;
    let start = (d.geo.base + p) as int;
    if d.readable(p, n) {
        assert(sector_ceil(start + n) >= start + n);
        assert(d2.bytes.subrange(start, start + n) =~= d.bytes.subrange(start, start + n));
    }
}

/// What has been written can be read.
pub proof fn lemma_write_read(d: Disk, pos: nat, data: Seq<u8>, at: int, n: nat)
    requires
        d.write(pos, data) is Ok,
        0 <= at,
        at + n <= data.len(),
    ensures
        ({
            let d2 = d.write(pos, data)->Ok_0;
            d2.read((pos + at) as nat, n) == Ok::<Seq<u8>, ErrView>(data.subrange(at, at + n))
        }),
{
    let d2 = d.write(pos, data)->Ok_0;
    let start = (d.geo.base + pos) as int;
    let end = start + data.len();
    assert(sector_ceil(start + at + n) <= sector_ceil(end));
    assert(sector_ceil(end) >= end);
    if start % 512 == 0 && data.len() % 512 == 0 {
        assert(sector_ceil(end) == end);
    }
    assert(d2.bytes.subrange(start + at, start + at + n) =~= data.subrange(at, at + n));
}

// ---------------------------------------------------------------------------
// Layout
// ---------------------------------------------------------------------------

/// Clusters follow each other.
pub proof fn lemma_cluster_order(geo: Geometry, a: u32, b: u32)
    requires
        1 <= a < b,
    ensures
        geo.cluster_pos(a) + geo.cluster_size() <= geo.cluster_pos(b),
        geo.data_offset <= geo.cluster_pos(a),
{
    let size = geo.cluster_size() as int;
    assert((a - 1) * size + size <= (b - 1) * size) by (nonlinear_arith)
        requires
            1 <= a < b,
            0 <= size,
    ;
    assert((a - 1) * size >= 0) by (nonlinear_arith)
        requires
            1 <= a,
            0 <= size,
    ;
}

pub proof fn lemma_cluster_pos(geo: Geometry, a: u32)
    requires
        1 <= a,
    ensures
        geo.data_offset <= geo.cluster_pos(a),
        geo.cluster_pos(a) == geo.data_offset + (a - 1) * geo.cluster_size(),
{
    let size = geo.cluster_size() as int;
    assert((a - 1) * size >= 0) by (nonlinear_arith)
        requires
            1 <= a,
            0 <= size,
    ;
}

/// The entries of the file allocation table lie before the clusters.
pub proof fn lemma_fat_before_data(geo: Geometry, c: u32)
    requires
        roomy(geo),
        c <= geo.total_clusters,
    ensures
        geo.fat_pos(c) + geo.fat_type.width() <= geo.data_offset,
{
    let w = geo.fat_type.width() as int;
    let total = geo.total_clusters as int;
    assert(c * w + w <= (total + 1) * w) by (nonlinear_arith)
        requires
            0 <= c <= total,
            0 <= w,
    ;
}

// ---------------------------------------------------------------------------
// File allocation table
// ---------------------------------------------------------------------------

/// An entry that is written and read back is the same.
pub proof fn lemma_fat_roundtrip(fat_type: FatType, big_endian: bool, e: FatEntry)
    ensures
        encode_fat(fat_type, big_endian, e).len() == fat_type.width(),
        encodable(fat_type, e) ==> decode_fat(
            fat_type,
            big_endian,
            encode_fat(fat_type, big_endian, e),
        ) == e,
{
    match fat_type {
        FatType::Fat16 => lemma_u16_roundtrip(big_endian, fat_value(fat_type, e) as u16),
        FatType::Fat32 => lemma_u32_roundtrip(big_endian, fat_value(fat_type, e)),
    }
}

/// An entry can be written where it can be read.
pub proof fn lemma_fat_writable(d: Disk, c: u32, e: FatEntry)
    ensures
        d.write_fat(c, e) is Ok <==> d.read_fat(c) is Ok,
        d.write_fat(c, e) is Err ==> d.write_fat(c, e) == Err::<Disk, ErrView>(
            d.read_fat(c)->Err_0,
        ),
{
    lemma_fat_roundtrip(d.geo.fat_type, d.geo.big_endian, e);
}

/// Writing an entry changes no other entry.
pub proof fn lemma_write_table(d: Disk, c: u32, e: FatEntry)
    requires
        d.write_fat(c, e) is Ok,
    ensures
        ({
            let d2 = d.write_fat(c, e)->Ok_0;
            &&& d2.geo == d.geo
            &&& d2.bytes.len() == d.bytes.len()
            &&& forall|x: u32| x != c ==> #[trigger] d2.read_fat(x) == d.read_fat(x)
            &&& encodable(d.geo.fat_type, e) ==> d2.read_fat(c) == Ok::<FatEntry, ErrView>(e)
            &&& d2.read_fat(c) is Ok
        }),
{
    let d2 = d.write_fat(c, e)->Ok_0;
    let data = encode_fat(d.geo.fat_type, d.geo.big_endian, e);
    let pos = d.geo.fat_pos(c);
    let w = d.geo.fat_type.width();
    lemma_fat_roundtrip(d.geo.fat_type, d.geo.big_endian, e);
    assert(sector_ceil((d.geo.base + pos + w) as int) >= d.geo.base + pos + w);
    assert(d2.bytes.len() == d.bytes.len());
    lemma_write_read(d, pos, data, 0, w);
    assert(data.subrange(0, w as int) =~= data);
    assert forall|x: u32| x != c implies #[trigger] d2.read_fat(x) == d.read_fat(x) by {
        lemma_write_frame(d, pos, data, d.geo.fat_pos(x), w);
    }
}

/// Writing an entry changes no other entry and no cluster.
pub proof fn lemma_write_fat(d: Disk, c: u32, e: FatEntry)
    requires
        d.write_fat(c, e) is Ok,
        roomy(d.geo),
        c <= d.geo.total_clusters,
    ensures
        ({
            let d2 = d.write_fat(c, e)->Ok_0;
            &&& touches(d, d2, set![c], Set::empty())
            &&& d2.bytes.len() == d.bytes.len()
            &&& forall|x: u32| x != c ==> #[trigger] d2.read_fat(x) == d.read_fat(x)
            &&& encodable(d.geo.fat_type, e) ==> d2.read_fat(c) == Ok::<FatEntry, ErrView>(e)
            &&& d2.read_fat(c) is Ok
        }),
{
    let d2 = d.write_fat(c, e)->Ok_0;
    let data = encode_fat(d.geo.fat_type, d.geo.big_endian, e);
    let pos = d.geo.fat_pos(c);
    lemma_fat_roundtrip(d.geo.fat_type, d.geo.big_endian, e);
    lemma_write_table(d, c, e);
    assert forall|x: u32, at: int, len: nat|
        #![trigger part(d2, x, at, len)]
        d.geo.in_range(x) && 0 <= at && at + len <= d.geo.cluster_size() && part(
            d,
            x,
            at,
            len,
        ) is Ok implies part(d2, x, at, len) == part(d, x, at, len) by {
        lemma_fat_before_data(d.geo, c);
        lemma_cluster_pos(d.geo, x);
        lemma_write_frame(d, pos, data, (d.geo.cluster_pos(x) + at) as nat, len);
    }
}

// ---------------------------------------------------------------------------
// Clusters
// ---------------------------------------------------------------------------

/// Writing inside a cluster changes no entry of the table, no other cluster, and nothing
/// beside the range in the cluster itself.
pub proof fn lemma_write_part(d: Disk, c: u32, at: int, data: Seq<u8>)
    requires
        roomy(d.geo),
        d.geo.in_range(c),
        0 <= at,
        at + data.len() <= d.geo.cluster_size(),
        d.write((d.geo.cluster_pos(c) + at) as nat, data) is Ok,
    ensures
        ({
            let d2 = d.write((d.geo.cluster_pos(c) + at) as nat, data)->Ok_0;
            &&& touches(d, d2, Set::empty(), set![c])
            &&& forall|b: int, n: nat|
                at <= b && b + n <= at + data.len() ==> #[trigger] part(d2, c, b, n) == Ok::<
                    Seq<u8>,
                    ErrView,
                >(data.subrange(b - at, b - at + n))
            &&& forall|b: int, n: nat|
                0 <= b && b + n <= d.geo.cluster_size() && (b + n <= at || at + data.len() <= b)
                    && part(d, c, b, n) is Ok ==> #[trigger] part(d2, c, b, n) == part(d, c, b, n)
        }),
{
    let pos = (d.geo.cluster_pos(c) + at) as nat;
    let d2 = d.write(pos, data)->Ok_0;
    lemma_cluster_pos(d.geo, c);
    lemma_write_frame(d, pos, data, 0, 0);
    assert forall|x: u32| x <= d.geo.total_clusters && d.read_fat(x) is Ok implies #[trigger] d2.read_fat(
        x,
    ) == d.read_fat(x) by {
        lemma_fat_before_data(d.geo, x);
        lemma_write_frame(d, pos, data, d.geo.fat_pos(x), d.geo.fat_type.width());
    }
    assert forall|x: u32, b: int, n: nat|
        #![trigger part(d2, x, b, n)]
        d.geo.in_range(x) && x != c && 0 <= b && b + n <= d.geo.cluster_size() && part(
            d,
            x,
            b,
            n,
        ) is Ok implies part(d2, x, b, n) == part(d, x, b, n) by {
        lemma_cluster_pos(d.geo, x);
        if x < c {
            lemma_cluster_order(d.geo, x, c);
        } else {
            lemma_cluster_order(d.geo, c, x);
        }
        lemma_write_frame(d, pos, data, (d.geo.cluster_pos(x) + b) as nat, n);
    }
    assert forall|b: int, n: nat| at <= b && b + n <= at + data.len() implies #[trigger] part(
        d2,
        c,
        b,
        n,
    ) == Ok::<Seq<u8>, ErrView>(data.subrange(b - at, b - at + n)) by {
        lemma_write_read(d, pos, data, b - at, n);
        assert((pos + (b - at)) as nat == (d.geo.cluster_pos(c) + b) as nat);
    }
    assert forall|b: int, n: nat|
        0 <= b && b + n <= d.geo.cluster_size() && (b + n <= at || at + data.len() <= b) && part(
            d,
            c,
            b,
            n,
        ) is Ok implies #[trigger] part(d2, c, b, n) == part(d, c, b, n) by {
        lemma_write_frame(d, pos, data, (d.geo.cluster_pos(c) + b) as nat, n);
    }
}

} // verus!
