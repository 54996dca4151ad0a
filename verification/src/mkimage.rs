//! Making disk images: formatting them, filling them with sample content, and the sizes that
//! go with them.

use vstd::prelude::*;
use vstd::string::StrSliceExecFns;
use rand::Rng;
use crate::bytes::{put_u16, put_u32, u16_bytes, u32_bytes};
use crate::device::{resized, splice, Device};
use crate::disk::{blank, encode_fat};
use crate::error::{ErrView, FatxError, IoKind, Result};
use crate::text::{chars_of, decimal, digit_char, push_decimal};
use crate::types::{
    FatEntry, FatType, FAT16_EOC, FAT32_EOC, FATX_MAGIC, FIRST_CLUSTER, SECTOR_SIZE,
    SUPERBLOCK_SIZE, XTAF_MAGIC,
};
use crate::volume::{fault, geometry, outcome};

verus! {

/// Images are at least this big, so that a superblock, a table and some clusters fit.
pub const MIN_SIZE: u64 = 0x20_0000;

// ---------------------------------------------------------------------------
// Sizes as text
// ---------------------------------------------------------------------------

/// The multiplier that a last letter stands for.
pub open spec fn suffix_value(c: char) -> Option<u64> {
    if c == 'G' || c == 'g' {
        Some(0x4000_0000)
    } else if c == 'M' || c == 'm' {
        Some(0x10_0000)
    } else if c == 'K' || c == 'k' {
        Some(0x400)
    } else {
        None
    }
}

/// Splits a size like "1.5G" into its number and the multiplier that its suffix stands for.
pub fn split_size(s: &str) -> (r: (&str, u64))
    ensures
        match (if s@.len() > 0 { suffix_value(s@.last()) } else { None }) {
            Some(m) => r.0@ == s@.drop_last() && r.1 == m,
            None => r.0@ == s@ && r.1 == 1,
        },
{
    let v = chars_of(s);
    let n: usize = v.len();
    if n == 0 {
        return (s, 1);
    }
    let c = v[n - 1];
    let multiplier: u64 = if c == 'G' || c == 'g' {
        0x4000_0000
    } else if c == 'M' || c == 'm' {
        0x10_0000
    } else if c == 'K' || c == 'k' {
        0x400
    } else {
        return (s, 1);
    };
    let number = s.substring_char(0, n - 1);
    assert(number@ =~= s@.drop_last());
    (number, multiplier)
}

/// `a / b` rounded to the nearest integer, ties to the even one.
pub open spec fn div_half_even(a: nat, b: nat) -> nat {
    let q = a / b;
    let r = a % b;
    if 2 * r < b || (2 * r == b && q % 2 == 0) {
        q
    } else {
        q + 1
    }
}

/// The distance between neighbouring numbers with 53 significant bits around `n`.
pub open spec fn ulp(n: nat) -> nat
    decreases n,
{
    if n < 0x20_0000_0000_0000 {
        1
    } else {
        2 * ulp(n / 2)
    }
}

/// `n` rounded to 53 significant bits.
pub open spec fn double_precision(n: nat) -> nat {
    div_half_even(n, ulp(n)) * ulp(n)
}

/// `n` in units of `unit`, with one decimal.
pub open spec fn one_decimal(n: nat, unit: nat) -> Seq<char> {
    let tenths = div_half_even(10 * double_precision(n), unit);
    decimal(tenths / 10).push('.').push(digit_char((tenths % 10) as int))
}

/// A number of bytes as it is shown.
pub open spec fn bytes_text(n: nat) -> Seq<char> {
    if n >= 0x4000_0000 {
        one_decimal(n, 0x4000_0000) + " GB"@
    } else if n >= 0x10_0000 {
        one_decimal(n, 0x10_0000) + " MB"@
    } else if n >= 0x400 {
        one_decimal(n, 0x400) + " KB"@
    } else {
        decimal(n) + " B"@
    }
}

fn find_ulp(n: u64) -> (u: u64)
    ensures
        u == ulp(n as nat),
        1 <= u < 0x1000,
        n >= 0x20_0000_0000_0000 ==> u * 0x10_0000_0000_0000 <= n,
        n < 0x20_0000_0000_0000 ==> u == 1,
        n < u * 0x20_0000_0000_0000,
    decreases n,
{
    if n < 0x20_0000_0000_0000 {
        1
    } else {
        2 * find_ulp(n / 2)
    }
}

fn push_one_decimal(s: &mut String, n: u64, unit: u64)
    requires
        0x400 <= unit <= 0x4000_0000,
    ensures
        final(s)@ == old(s)@ + one_decimal(n as nat, unit as nat),
{
    let u: u64 = find_ulp(n);
    let q: u64 = n / u;
    let r: u64 = n % u;
    assert(q <= 0x20_0000_0000_0000) by (nonlinear_arith)
        requires
            q == n / u,
            n < u * 0x20_0000_0000_0000,
            u >= 1,
    ;
    let rounded: u64 = if 2 * r < u || (2 * r == u && q % 2 == 0) { q } else { q + 1 };
    proof {
        assert(rounded == div_half_even(n as nat, u as nat));
        assert(rounded * u <= 0x20_0000_0000_0001 * 0x1000) by (nonlinear_arith)
            requires
                0 <= rounded <= 0x20_0000_0000_0001,
                0 <= u <= 0x1000,
        ;
    }
    let ten: u128 = 10 * (rounded as u128 * u as u128);
    let q2: u128 = ten / unit as u128;
    let r2: u128 = ten % unit as u128;
    let tenths: u128 = if 2 * r2 < unit as u128 || (2 * r2 == unit as u128 && q2 % 2 == 0) {
        q2
    } else {
        q2 + 1
    };
    proof {
        assert(rounded * u == double_precision(n as nat));
        assert(tenths == div_half_even(10 * double_precision(n as nat), unit as nat));
        assert(q2 <= ten / 0x400) by (nonlinear_arith)
            requires
                q2 == ten / unit as u128,
                unit >= 0x400,
                ten >= 0,
        ;
    }
    push_decimal(s, (tenths / 10) as u64);
    s.push('.');
    s.push((48 + (tenths % 10) as u8) as char);
    assert(s@ =~= old(s)@ + one_decimal(n as nat, unit as nat));
}

/// A number of bytes as text: whole bytes below 1 KB, and from there on KB, MB or GB with one
/// decimal. Sizes are rounded to 53 significant bits first, and to the even digit when two
/// are equally near.
pub fn format_bytes(n: u64) -> (s: String)
    ensures
        s@ == bytes_text(n as nat),
{
    let mut s = String::new();
    if n >= 0x4000_0000 {
        push_one_decimal(&mut s, n, 0x4000_0000);
        vstd::string::StringExecFns::append(&mut s, " GB");
    } else if n >= 0x10_0000 {
        push_one_decimal(&mut s, n, 0x10_0000);
        vstd::string::StringExecFns::append(&mut s, " MB");
    } else if n >= 0x400 {
        push_one_decimal(&mut s, n, 0x400);
        vstd::string::StringExecFns::append(&mut s, " KB");
    } else {
        push_decimal(&mut s, n);
        vstd::string::StringExecFns::append(&mut s, " B");
    }
    assert(s@ =~= bytes_text(n as nat));
    s
}

// ---------------------------------------------------------------------------
// Formatting
// ---------------------------------------------------------------------------

/// Calls `rand::thread_rng` and draws a number. Every 32-bit number may come out.
#[verifier::external_body]
pub(crate) fn random_volume_id() -> (id: u32) {
    rand::thread_rng().gen()
}

/// The superblock of a new volume.
pub open spec fn superblock_bytes(is_xtaf: bool, volume_id: u32, spc: u32) -> Seq<u8> {
    let magic = if is_xtaf { XTAF_MAGIC@ } else { FATX_MAGIC@ };
    magic + u32_bytes(is_xtaf, volume_id) + u32_bytes(is_xtaf, spc) + u16_bytes(is_xtaf, 1)
        + Seq::new((SUPERBLOCK_SIZE - 14) as nat, |i: int| 0u8)
}

/// The bytes of a device after a volume of `size` bytes has been put on it: the device has that
/// length, a superblock, an entry for the root directory in the table, and the root directory's
/// cluster.
pub open spec fn formatted_bytes(
    bytes: Seq<u8>,
    size: u64,
    is_xtaf: bool,
    spc: u32,
    volume_id: u32,
) -> Seq<u8> {
    let geo = geometry(0, is_xtaf, size as int, spc);
    let start = resized(bytes, size as nat);
    let with_superblock = splice(start, 0, superblock_bytes(is_xtaf, volume_id, spc));
    let with_table = splice(
        with_superblock,
        geo.fat_pos(FIRST_CLUSTER),
        encode_fat(geo.fat_type, is_xtaf, FatEntry::EndOfChain),
    );
    splice(with_table, geo.data_offset, blank(geo.cluster_size()))
}

/// A device that can hold `capacity` bytes after a write: as it was if the write does not fit.
pub open spec fn written(bytes: Seq<u8>, capacity: nat, offset: nat, data: Seq<u8>) -> Seq<u8> {
    if offset + data.len() <= capacity {
        splice(bytes, offset, data)
    } else {
        bytes
    }
}

/// What formatting makes of a device that can hold `capacity` bytes: it is made `size` bytes
/// long if it can be, and ends with the first write that does not fit.
pub open spec fn format_result(
    bytes: Seq<u8>,
    capacity: nat,
    size: u64,
    is_xtaf: bool,
    spc: u32,
    volume_id: u32,
) -> (Seq<u8>, core::result::Result<(), ErrView>) {
    let geo = geometry(0, is_xtaf, size as int, spc);
    let sb = superblock_bytes(is_xtaf, volume_id, spc);
    let entry = encode_fat(geo.fat_type, is_xtaf, FatEntry::EndOfChain);
    let start = resized(bytes, size as nat);
    let with_superblock = splice(start, 0, sb);
    let with_table = written(with_superblock, capacity, geo.fat_pos(FIRST_CLUSTER), entry);
    let full = Err(ErrView::Io(IoKind::OutOfSpace));
    if size > capacity {
        (bytes, full)
    } else if geo.fat_pos(FIRST_CLUSTER) + entry.len() > capacity {
        (with_superblock, full)
    } else if geo.data_offset + geo.cluster_size() > capacity {
        (with_table, full)
    } else {
        (formatted_bytes(bytes, size, is_xtaf, spc, volume_id), Ok(()))
    }
}

fn make_superblock(is_xtaf: bool, volume_id: u32, spc: u32) -> (sb: Vec<u8>)
    ensures
        sb@ == superblock_bytes(is_xtaf, volume_id, spc),
        sb@.len() == SUPERBLOCK_SIZE,
{
    let mut sb: Vec<u8> = Vec::new();
    if is_xtaf {
        sb.extend_from_slice(XTAF_MAGIC.as_slice());
    } else {
        sb.extend_from_slice(FATX_MAGIC.as_slice());
    }
    put_u32(is_xtaf, volume_id, &mut sb);
    put_u32(is_xtaf, spc, &mut sb);
    put_u16(is_xtaf, 1, &mut sb);
    let ghost head = sb@;
    let rest = vec![0u8; SUPERBLOCK_SIZE as usize - 14];
    sb.extend_from_slice(rest.as_slice());
    assert(rest@ =~= Seq::new((SUPERBLOCK_SIZE - 14) as nat, |i: int| 0u8));
    assert(sb@ =~= superblock_bytes(is_xtaf, volume_id, spc));
    sb
}

/// The shape of a new volume: the number of its clusters, the width of its table's entries
/// and the offset of its first cluster.
pub fn image_layout(size: u64, is_xtaf: bool, spc: u32) -> (r: (u32, FatType, u64))
    requires
        size >= SUPERBLOCK_SIZE,
        1 <= spc <= 128,
    ensures
        ({
            let geo = geometry(0, is_xtaf, size as int, spc);
            r == (geo.total_clusters, geo.fat_type, geo.data_offset as u64) && r.2
                == geo.data_offset && r.2 < 0x1_0000_0000_0000
        }),
{
    let cluster_size: u64 = spc as u64 * SECTOR_SIZE;
    let total_sectors: u64 = size / SECTOR_SIZE - SUPERBLOCK_SIZE / SECTOR_SIZE;
    let estimate: u64 = (if total_sectors > 260 { total_sectors - 260 } else { 0 }) / spc as u64;
    let fat_type = if estimate >= 65_525 { FatType::Fat32 } else { FatType::Fat16 };
    let entry_size = fat_type.entry_size();
    let clusters: u64 = if is_xtaf {
        (size - SUPERBLOCK_SIZE) / cluster_size
    } else {
        total_sectors * SECTOR_SIZE / (cluster_size + entry_size)
    };
    let total_clusters: u32 = (clusters % 0x1_0000_0000) as u32;
    assert(total_clusters * entry_size <= 0xFFFF_FFFF * 4) by (nonlinear_arith)
        requires
            0 <= total_clusters <= 0xFFFF_FFFF,
            0 <= entry_size <= 4,
    ;
    let raw_fat_size: u64 = total_clusters as u64 * entry_size;
    let fat_size: u64 = (raw_fat_size + 0xFFF) / 0x1000 * 0x1000;
    (total_clusters, fat_type, SUPERBLOCK_SIZE + fat_size)
}

/// Gives a device its length and puts an empty volume with that identifier on it. What a device
/// held before and is not written stays as it is.
pub fn format_image_with_id<D: Device>(
    dev: &mut D,
    size: u64,
    is_xtaf: bool,
    spc: u32,
    volume_id: u32,
) -> (r: Result<()>)
    requires
        old(dev).inv(),
        size >= SUPERBLOCK_SIZE,
        1 <= spc <= 128,
    ensures
        final(dev).inv(),
        final(dev).state().capacity == old(dev).state().capacity,
        final(dev).state().reliable == old(dev).state().reliable,
        fault(r) ==> !old(dev).state().reliable,
        r is Ok ==> final(dev).state().stored == final(dev).state().bytes,
        !fault(r) ==> (final(dev).state().bytes, outcome(r)) == format_result(
            old(dev).state().bytes,
            old(dev).state().capacity,
            size,
            is_xtaf,
            spc,
            volume_id,
        ),
{
    let (total_clusters, fat_type, data_offset) = image_layout(size, is_xtaf, spc);
    let ghost geo = geometry(0, is_xtaf, size as int, spc);
    let sb = make_superblock(is_xtaf, volume_id, spc);
    match dev.set_len(size) {
        Ok(_) => {},
        Err(e) => return Err(FatxError::Io(e)),
    }
    match dev.write_all_at(0, sb.as_slice()) {
        Ok(_) => {},
        Err(e) => return Err(FatxError::Io(e)),
    }
    let mut entry: Vec<u8> = Vec::new();
    match fat_type {
        FatType::Fat16 => put_u16(is_xtaf, FAT16_EOC, &mut entry),
        FatType::Fat32 => put_u32(is_xtaf, FAT32_EOC, &mut entry),
    }
    assert(entry@ =~= encode_fat(geo.fat_type, is_xtaf, FatEntry::EndOfChain));
    match dev.write_all_at(SUPERBLOCK_SIZE + fat_type.entry_size(), entry.as_slice()) {
        Ok(_) => {},
        Err(e) => return Err(FatxError::Io(e)),
    }
    let root = vec![0xFFu8; spc as usize * 512];
    assert(root@ =~= blank(geo.cluster_size()));
    match dev.write_all_at(data_offset, root.as_slice()) {
        Ok(_) => {},
        Err(e) => return Err(FatxError::Io(e)),
    }
    match dev.flush() {
        Ok(_) => Ok(()),
        Err(e) => Err(FatxError::Io(e)),
    }
}

/// Gives a device its length and puts an empty volume with an identifier drawn at random on it.
pub fn format_image<D: Device>(dev: &mut D, size: u64, is_xtaf: bool, spc: u32) -> (r: Result<()>)
    requires
        old(dev).inv(),
        size >= SUPERBLOCK_SIZE,
        1 <= spc <= 128,
    ensures
        final(dev).inv(),
        final(dev).state().capacity == old(dev).state().capacity,
        final(dev).state().reliable == old(dev).state().reliable,
        fault(r) ==> !old(dev).state().reliable,
        r is Ok ==> final(dev).state().stored == final(dev).state().bytes,
        !fault(r) ==> exists|volume_id: u32|
            (final(dev).state().bytes, outcome(r)) == #[trigger] format_result(
                old(dev).state().bytes,
                old(dev).state().capacity,
                size,
                is_xtaf,
                spc,
                volume_id,
            ),
{
    let volume_id = random_volume_id();
    format_image_with_id(dev, size, is_xtaf, spc, volume_id)
}

} // verus!
