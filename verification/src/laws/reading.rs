//! Reading a stretch of a file, and an entry.

use vstd::prelude::*;
use crate::dirent::law_dirent_roundtrip;
use crate::disk::{dirent_bytes, Disk};
use crate::error::ErrView;
use crate::laws::frame::lemma_write_read;
use crate::types::{DirentView, DIRENT_SIZE, MAX_FILENAME_LEN};

verus! {

spec fn lesser(a: int, b: int) -> int {
    if a < b {
        a
    } else {
        b
    }
}

/// Reading fewer bytes gives the start of what reading more gives.
proof fn lemma_read_less(d: Disk, chain: Seq<u32>, i: int, size: nat, m: nat)
    requires
        d.geo.valid(),
        d.read_data(chain, i, size) is Ok,
        0 < m <= size,
    ensures
        d.read_data(chain, i, m) == Ok::<Seq<u8>, ErrView>(
            d.read_data(chain, i, size)->Ok_0.take(
                lesser(m as int, d.read_data(chain, i, size)->Ok_0.len() as int),
            ),
        ),
    decreases chain.len() - i,
{
    let data = d.read_data(chain, i, size)->Ok_0;
    let cs = d.geo.cluster_size();
    if 0 <= i < chain.len() {
        let b = d.read_cluster(chain[i])->Ok_0;
        lemma_cluster_len(d, chain[i]);
        let n = lesser(size as int, cs as int) as nat;
        let k = lesser(m as int, cs as int) as nat;
        if size == n {
            assert(b.take(k as int) =~= data.take(lesser(m as int, data.len() as int)));
        } else {
            let rest = d.read_data(chain, i + 1, (size - n) as nat)->Ok_0;
            assert(data == b.take(n as int) + rest);
            if m > cs {
                lemma_read_less(d, chain, i + 1, (size - n) as nat, (m - n) as nat);
                assert(b.take(k as int) + rest.take(lesser(m - n, rest.len() as int)) =~= data.take(
                    lesser(m as int, data.len() as int),
                ));
            } else {
                assert(b.take(k as int) =~= data.take(lesser(m as int, data.len() as int)));
            }
        }
    } else {
        assert(data.take(0) =~= data);
    }
}

proof fn lemma_cluster_len(d: Disk, cluster: u32)
    requires
        d.read_cluster(cluster) is Ok,
    ensures
        d.read_cluster(cluster)->Ok_0.len() == d.geo.cluster_size(),
{
}

/// Starting `k` clusters later gives what is left without the first `k` clusters.
proof fn lemma_read_later(d: Disk, chain: Seq<u32>, i: int, size: nat, k: nat)
    requires
        d.geo.valid(),
        i >= 0,
        d.read_data(chain, i, size) is Ok,
        k * d.geo.cluster_size() < size,
    ensures
        d.read_data(chain, i + k, (size - k * d.geo.cluster_size()) as nat) == Ok::<
            Seq<u8>,
            ErrView,
        >(
            d.read_data(chain, i, size)->Ok_0.skip(
                lesser(
                    (k * d.geo.cluster_size()) as int,
                    d.read_data(chain, i, size)->Ok_0.len() as int,
                ),
            ),
        ),
    decreases k,
{
    let data = d.read_data(chain, i, size)->Ok_0;
    let cs = d.geo.cluster_size();
    if k == 0 {
        assert(k * cs == 0) by (nonlinear_arith)
            requires
                k == 0,
        ;
        assert(data.skip(0) =~= data);
    } else {
        assert(k * cs == (k - 1) * cs + cs && (k - 1) * cs >= 0) by (nonlinear_arith)
            requires
                k >= 1,
                cs >= 0,
        ;
        if i < chain.len() {
            let b = d.read_cluster(chain[i])->Ok_0;
            lemma_cluster_len(d, chain[i]);
            let rest = d.read_data(chain, i + 1, (size - cs) as nat)->Ok_0;
            assert(data == b.take(cs as int) + rest);
            lemma_read_later(d, chain, i + 1, (size - cs) as nat, (k - 1) as nat);
            assert(rest.skip(lesser((k - 1) * cs, rest.len() as int)) =~= data.skip(
                lesser((k * cs) as int, data.len() as int),
            ));
        } else {
            assert(data.skip(0) =~= Seq::<u8>::empty());
        }
    }
}

/// Reading a stretch of a file gives the bytes that reading all of it gives there.
pub proof fn law_range_is_part_of_file(d: Disk, entry: DirentView, offset: nat, len: nat)
    requires
        d.geo.valid(),
        d.read_file(entry) is Ok,
    ensures
        ({
            let data = d.read_file(entry)->Ok_0;
            let from = if offset < data.len() { offset } else { data.len() };
            let to = if offset + len < data.len() { offset + len } else { data.len() };
            d.read_range(entry, offset, len) == Ok::<Seq<u8>, ErrView>(
                data.subrange(from as int, to as int),
            )
        }),
{
    let data = d.read_file(entry)->Ok_0;
    let chain = d.chain(entry.first_cluster)->Ok_0;
    let size = entry.file_size as nat;
    let cs = d.geo.cluster_size();
    let from = if offset < data.len() { offset } else { data.len() };
    let to = if offset + len < data.len() { offset + len } else { data.len() };
    lemma_data_len(d, chain, 0, size);
    if offset >= size || len == 0 {
        assert(data.subrange(from as int, to as int) =~= Seq::<u8>::empty());
    } else {
        let rest = (size - offset) as nat;
        let n = if len < rest { len } else { rest };
        let k = offset / cs;
        let skip = offset % cs;
        vstd::arithmetic::div_mod::lemma_fundamental_div_mod(offset as int, cs as int);
        assert(k * cs + skip == offset) by (nonlinear_arith)
            requires
                offset == cs * k + skip,
        ;
        lemma_read_later(d, chain, 0, size, k);
        let later = data.skip(lesser((k * cs) as int, data.len() as int));
        lemma_read_less(d, chain, k as int, (size - k * cs) as nat, skip + n);
        let b = later.take(lesser((skip + n) as int, later.len() as int));
        assert(d.read_data(chain, k as int, skip + n) == Ok::<Seq<u8>, ErrView>(b));
        if b.len() <= skip {
            assert(data.subrange(from as int, to as int) =~= Seq::<u8>::empty());
        } else {
            assert(b.skip(skip as int) =~= data.subrange(from as int, to as int));
        }
    }
}

proof fn lemma_data_len(d: Disk, chain: Seq<u32>, i: int, size: nat)
    requires
        d.read_data(chain, i, size) is Ok,
    ensures
        d.read_data(chain, i, size)->Ok_0.len() <= size,
    decreases chain.len() - i,
{
    if 0 <= i < chain.len() {
        lemma_cluster_len(d, chain[i]);
        let n = if size < d.geo.cluster_size() { size } else { d.geo.cluster_size() };
        if size != n {
            lemma_data_len(d, chain, i + 1, (size - n) as nat);
        }
    }
}

/// An entry that has been stored at a place of the volume is read from there.
pub proof fn law_stored_entry_reads_back(d: Disk, pos: nat, e: DirentView)
    requires
        e.filename_raw.len() == MAX_FILENAME_LEN,
        e.attributes.bits & 0x3F == e.attributes.bits,
        d.write(pos, dirent_bytes(d.geo.big_endian, e)) is Ok,
    ensures
        d.write(pos, dirent_bytes(d.geo.big_endian, e))->Ok_0.dirent_at(pos) == Ok::<
            DirentView,
            ErrView,
        >(e),
{
    let raw = dirent_bytes(d.geo.big_endian, e);
    law_dirent_roundtrip(d.geo.big_endian, e);
    lemma_write_read(d, pos, raw, 0, DIRENT_SIZE as nat);
    assert(raw.subrange(0, DIRENT_SIZE as int) =~= raw);
    assert((pos + 0) as nat == pos);
}

} // verus!
