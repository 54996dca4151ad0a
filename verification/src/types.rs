//! On-disk types and constants of FATX and XTAF.
//!
//! The original Xbox ("FATX") and the Xbox 360 ("XTAF") use variants of the same file
//! system: a 4 KiB superblock, one file allocation table of 16-bit or 32-bit entries,
//! and 64-byte directory entries with names of at most 42 characters.

use vstd::prelude::*;
use crate::text::{fixed_decimal, from_utf8_lossy, lossy_text, push_fixed_decimal};

verus! {

// ---------------------------------------------------------------------------
// Constants
// ---------------------------------------------------------------------------

/// Magic bytes of original Xbox volumes: "FATX".
pub const FATX_MAGIC: [u8; 4] = [0x46, 0x41, 0x54, 0x58];

/// Magic bytes of Xbox 360 volumes: "XTAF".
pub const XTAF_MAGIC: [u8; 4] = [0x58, 0x54, 0x41, 0x46];

/// Size of the superblock in bytes.
pub const SUPERBLOCK_SIZE: u64 = 0x1000;

/// Size of a sector in bytes.
pub const SECTOR_SIZE: u64 = 512;

/// Maximum length of a file name.
pub const MAX_FILENAME_LEN: usize = 42;

/// Size of a directory entry in bytes.
pub const DIRENT_SIZE: usize = 64;

/// First byte of a deleted directory entry.
pub const DIRENT_DELETED: u8 = 0xE5;

/// First byte of the entry that ends a directory.
pub const DIRENT_END: u8 = 0xFF;

/// The number of clusters from which on 16-bit entries run out. The width of a volume's
/// entries is decided by an estimate of its clusters when it is opened.
pub const FAT16_CLUSTER_THRESHOLD: u32 = 65_520;

/// 16-bit values from here on end a chain.
pub const FAT16_EOC: u16 = 0xFFF8;

/// 16-bit value of a free cluster.
pub const FAT16_FREE: u16 = 0x0000;

/// 16-bit value of a bad cluster.
pub const FAT16_BAD: u16 = 0xFFF7;

/// 32-bit values from here on end a chain.
pub const FAT32_EOC: u32 = 0x0FFF_FFF8;

/// 32-bit value of a free cluster.
pub const FAT32_FREE: u32 = 0x0000_0000;

/// 32-bit value of a bad cluster.
pub const FAT32_BAD: u32 = 0x0FFF_FFF7;

/// The first cluster of the data area, which holds the root directory.
pub const FIRST_CLUSTER: u32 = 1;

/// "FATX" or "XTAF".
pub open spec fn valid_magic(magic: Seq<u8>) -> bool {
    magic == FATX_MAGIC@ || magic == XTAF_MAGIC@
}

fn same_bytes4(a: &[u8; 4], b: &[u8; 4]) -> (same: bool)
    ensures
        same == (a@ == b@),
{
    let same = a[0] == b[0] && a[1] == b[1] && a[2] == b[2] && a[3] == b[3];
    proof {
        if same {
            assert(a@ =~= b@);
        }
    }
    same
}

/// Whether the four bytes are the magic of a FATX or an XTAF volume.
pub fn is_valid_magic(magic: &[u8; 4]) -> (valid: bool)
    ensures
        valid == valid_magic(magic@),
{
    same_bytes4(magic, &FATX_MAGIC) || same_bytes4(magic, &XTAF_MAGIC)
}

// ---------------------------------------------------------------------------
// Console generation
// ---------------------------------------------------------------------------

/// The console that a volume or partition belongs to.
#[derive(Debug, Clone, Copy, PartialEq, Eq, Structural)]
pub enum XboxGeneration {
    /// Original Xbox (2001), magic "FATX".
    Original,
    /// Xbox 360 (2005), magic "XTAF".
    Xbox360,
}

impl XboxGeneration {
    /// The name of the console.
    pub fn label(&self) -> (s: &'static str)
        ensures
            s@ == (match *self {
                XboxGeneration::Original => "Xbox (Original)"@,
                XboxGeneration::Xbox360 => "Xbox 360"@,
            }),
    {
        match *self {
            XboxGeneration::Original => "Xbox (Original)",
            XboxGeneration::Xbox360 => "Xbox 360",
        }
    }
}

// ---------------------------------------------------------------------------
// Superblock
// ---------------------------------------------------------------------------

/// The superblock at the start of a volume.
#[derive(Debug, Clone, Copy)]
pub struct Superblock {
    /// "FATX" or "XTAF".
    pub magic: [u8; 4],
    /// Volume identifier.
    pub volume_id: u32,
    /// Number of sectors in a cluster.
    pub sectors_per_cluster: u32,
    /// Number of copies of the file allocation table, normally 1.
    pub fat_copies: u16,
}

impl Superblock {
    /// The size of a cluster in bytes.
    pub fn cluster_size(&self) -> (n: u64)
        ensures
            n == self.sectors_per_cluster * SECTOR_SIZE,
    {
        self.sectors_per_cluster as u64 * SECTOR_SIZE
    }

    /// Whether the magic is that of a FATX or an XTAF volume.
    pub fn is_valid(&self) -> (valid: bool)
        ensures
            valid == valid_magic(self.magic@),
    {
        is_valid_magic(&self.magic)
    }

    /// The console that the volume belongs to.
    pub fn generation(&self) -> (g: XboxGeneration)
        ensures
            g == (if self.magic@ == XTAF_MAGIC@ {
                XboxGeneration::Xbox360
            } else {
                XboxGeneration::Original
            }),
    {
        if same_bytes4(&self.magic, &XTAF_MAGIC) {
            XboxGeneration::Xbox360
        } else {
            XboxGeneration::Original
        }
    }

    /// The magic as text, or "????".
    pub fn magic_str(&self) -> (s: &'static str)
        ensures
            s@ == (if self.magic@ == XTAF_MAGIC@ {
                "XTAF"@
            } else if self.magic@ == FATX_MAGIC@ {
                "FATX"@
            } else {
                "????"@
            }),
    {
        if same_bytes4(&self.magic, &XTAF_MAGIC) {
            "XTAF"
        } else if same_bytes4(&self.magic, &FATX_MAGIC) {
            "FATX"
        } else {
            "????"
        }
    }
}

// ---------------------------------------------------------------------------
// File allocation table
// ---------------------------------------------------------------------------

/// The width of the entries of a file allocation table.
#[derive(Debug, Clone, Copy, PartialEq, Eq, Structural)]
pub enum FatType {
    Fat16,
    Fat32,
}

impl FatType {
    /// The size of an entry in bytes.
    pub open spec fn width(self) -> nat {
        match self {
            FatType::Fat16 => 2,
            FatType::Fat32 => 4,
        }
    }

    /// The size of an entry in bytes.
    pub fn entry_size(self) -> (n: u64)
        ensures
            n == self.width(),
    {
        match self {
            FatType::Fat16 => 2,
            FatType::Fat32 => 4,
        }
    }

    /// "FAT16" or "FAT32".
    pub fn label(self) -> (s: &'static str)
        ensures
            s@ == (match self {
                FatType::Fat16 => "FAT16"@,
                FatType::Fat32 => "FAT32"@,
            }),
    {
        match self {
            FatType::Fat16 => "FAT16",
            FatType::Fat32 => "FAT32",
        }
    }
}

/// What the file allocation table says of a cluster.
#[derive(Debug, Clone, Copy, PartialEq, Eq, Structural)]
pub enum FatEntry {
    /// The cluster is free.
    Free,
    /// The chain goes on at this cluster.
    Next(u32),
    /// The chain ends here.
    EndOfChain,
    /// The cluster must not be used.
    Bad,
}

// ---------------------------------------------------------------------------
// Directory entries
// ---------------------------------------------------------------------------

/// File attributes: the second byte of a directory entry.
#[derive(Debug, Clone, Copy, PartialEq, Eq, Structural)]
pub struct FileAttributes {
    pub bits: u8,
}

impl FileAttributes {
    pub const READ_ONLY: u8 = 0x01;

    pub const HIDDEN: u8 = 0x02;

    pub const SYSTEM: u8 = 0x04;

    pub const VOLUME_ID: u8 = 0x08;

    pub const DIRECTORY: u8 = 0x10;

    pub const ARCHIVE: u8 = 0x20;

    /// The attributes as the byte that is stored.
    pub fn bits(&self) -> (b: u8)
        ensures
            b == self.bits,
    {
        self.bits
    }

    /// The attributes among the bits of `bits`; unknown bits are dropped.
    pub fn from_bits_truncate(bits: u8) -> (a: FileAttributes)
        ensures
            a.bits == bits & 0x3F,
    {
        FileAttributes { bits: bits & 0x3F }
    }

    /// Every bit of `bits` is set.
    pub open spec fn includes(self, bits: u8) -> bool {
        self.bits & bits == bits
    }

    /// Whether every bit of `bits` is set.
    pub fn contains(&self, bits: u8) -> (b: bool)
        ensures
            b == self.includes(bits),
    {
        self.bits & bits == bits
    }
}

/// A directory entry.
#[derive(Debug, Clone, Copy)]
pub struct DirectoryEntry {
    /// Length of the name (0xE5: deleted, 0xFF or 0x00: end of the directory).
    pub filename_len: u8,
    pub attributes: FileAttributes,
    /// The bytes of the name, padded with 0xFF.
    pub filename_raw: [u8; MAX_FILENAME_LEN],
    /// First cluster of the contents.
    pub first_cluster: u32,
    /// Size in bytes, 0 for directories.
    pub file_size: u32,
    pub creation_time: u16,
    pub creation_date: u16,
    pub write_time: u16,
    pub write_date: u16,
    pub access_time: u16,
    pub access_date: u16,
}

/// A directory entry as a mathematical value.
#[verifier::ext_equal]
pub struct DirentView {
    pub filename_len: u8,
    pub attributes: FileAttributes,
    pub filename_raw: Seq<u8>,
    pub first_cluster: u32,
    pub file_size: u32,
    pub creation_time: u16,
    pub creation_date: u16,
    pub write_time: u16,
    pub write_date: u16,
    pub access_time: u16,
    pub access_date: u16,
}

/// Padding is no part of a name.
pub open spec fn is_name_byte(b: u8) -> bool {
    b != 0xFF && b != 0x00
}

/// The bytes of a name: the first `len` of `raw`, without padding.
pub open spec fn name_bytes(len: u8, raw: Seq<u8>) -> Seq<u8> {
    let n = if len < MAX_FILENAME_LEN { len as int } else { MAX_FILENAME_LEN as int };
    raw.take(n).filter(|b: u8| is_name_byte(b))
}

/// First byte of a slot after which a directory holds nothing.
pub open spec fn is_end_marker(b: u8) -> bool {
    b == DIRENT_END || b == 0x00
}

impl DirentView {
    pub open spec fn filename(self) -> Seq<char> {
        lossy_text(name_bytes(self.filename_len, self.filename_raw))
    }

    pub open spec fn is_directory(self) -> bool {
        self.attributes.includes(FileAttributes::DIRECTORY)
    }

    pub open spec fn is_deleted(self) -> bool {
        self.filename_len == DIRENT_DELETED
    }

    pub open spec fn is_end(self) -> bool {
        is_end_marker(self.filename_len)
    }
}

impl View for DirectoryEntry {
    type V = DirentView;

    open spec fn view(&self) -> DirentView {
        DirentView {
            filename_len: self.filename_len,
            attributes: self.attributes,
            filename_raw: self.filename_raw@,
            first_cluster: self.first_cluster,
            file_size: self.file_size,
            creation_time: self.creation_time,
            creation_date: self.creation_date,
            write_time: self.write_time,
            write_date: self.write_date,
            access_time: self.access_time,
            access_date: self.access_date,
        }
    }
}

/// Year, month and day of a packed date: seven bits of years since 1980, four of the
/// month, five of the day.
pub open spec fn unpack_date(date: u16) -> (u16, u8, u8) {
    ((date / 512 + 1980) as u16, (date / 32 % 16) as u8, (date % 32) as u8)
}

/// Hour, minute and second of a packed time: five bits of the hour, six of the minute,
/// five of the second halved.
pub open spec fn unpack_time(time: u16) -> (u8, u8, u8) {
    ((time / 2048) as u8, (time / 32 % 64) as u8, (time % 32 * 2) as u8)
}

/// A date in packed form; each field keeps the bits that fit.
pub open spec fn pack_date(year: u16, month: u8, day: u8) -> u16 {
    let years = if year >= 1980 { year - 1980 } else { 0 };
    (years % 128 * 512 + month % 16 * 32 + day % 32) as u16
}

/// A time in packed form; each field keeps the bits that fit, and odd seconds are
/// rounded down.
pub open spec fn pack_time(hour: u8, minute: u8, second: u8) -> u16 {
    (hour % 32 * 2048 + minute % 64 * 32 + second / 2 % 32) as u16
}

/// "YYYY-MM-DD hh:mm:ss" of a packed date and time.
pub open spec fn datetime_text(date: u16, time: u16) -> Seq<char> {
    let (y, m, d) = unpack_date(date);
    let (h, min, s) = unpack_time(time);
    fixed_decimal(y as nat, 4).push('-') + fixed_decimal(m as nat, 2).push('-') + fixed_decimal(
        d as nat,
        2,
    ).push(' ') + fixed_decimal(h as nat, 2).push(':') + fixed_decimal(min as nat, 2).push(':')
        + fixed_decimal(s as nat, 2)
}

fn datetime_str(date: u16, time: u16) -> (s: String)
    ensures
        s@ == datetime_text(date, time),
{
    let (y, m, d) = DirectoryEntry::decode_date(date);
    let (h, min, sec) = DirectoryEntry::decode_time(time);
    let mut s = String::new();
    push_fixed_decimal(&mut s, y as u32, 4);
    s.push('-');
    push_fixed_decimal(&mut s, m as u32, 2);
    s.push('-');
    push_fixed_decimal(&mut s, d as u32, 2);
    s.push(' ');
    push_fixed_decimal(&mut s, h as u32, 2);
    s.push(':');
    push_fixed_decimal(&mut s, min as u32, 2);
    s.push(':');
    push_fixed_decimal(&mut s, sec as u32, 2);
    assert(s@ =~= datetime_text(date, time));
    s
}

impl DirectoryEntry {
    /// The name as text.
    pub fn filename(&self) -> (s: String)
        ensures
            s@ == self@.filename(),
    {
        let len: usize = if (self.filename_len as usize) < MAX_FILENAME_LEN {
            self.filename_len as usize
        } else {
            MAX_FILENAME_LEN
        };
        let mut clean: Vec<u8> = Vec::new();
        let ghost keep = |b: u8| is_name_byte(b);
        assert(self.filename_raw@.take(0).filter(keep) =~= Seq::<u8>::empty()) by {
            reveal(Seq::filter);
        }
        for i in 0..len
            invariant
                len <= MAX_FILENAME_LEN,
                keep == (|b: u8| is_name_byte(b)),
                clean@ == self.filename_raw@.take(i as int).filter(keep),
        {
            let b = self.filename_raw[i];
            proof {
                let raw = self.filename_raw@;
                assert(raw.take(i + 1).drop_last() =~= raw.take(i as int));
                reveal(Seq::filter);
            }
            if b != 0xFF && b != 0x00 {
                clean.push(b);
            }
        }
        from_utf8_lossy(clean.as_slice())
    }

    /// Whether the entry is a directory.
    pub fn is_directory(&self) -> (b: bool)
        ensures
            b == self@.is_directory(),
    {
        self.attributes.contains(FileAttributes::DIRECTORY)
    }

    /// Whether the entry has been deleted.
    pub fn is_deleted(&self) -> (b: bool)
        ensures
            b == self@.is_deleted(),
    {
        self.filename_len == DIRENT_DELETED
    }

    /// Whether the entry ends its directory.
    pub fn is_end(&self) -> (b: bool)
        ensures
            b == self@.is_end(),
    {
        self.filename_len == DIRENT_END || self.filename_len == 0x00
    }

    /// Year, month and day of a packed date.
    pub fn decode_date(date: u16) -> (ymd: (u16, u8, u8))
        ensures
            ymd == unpack_date(date),
    {
        (date / 512 + 1980, (date / 32 % 16) as u8, (date % 32) as u8)
    }

    /// Hour, minute and second of a packed time.
    pub fn decode_time(time: u16) -> (hms: (u8, u8, u8))
        ensures
            hms == unpack_time(time),
    {
        ((time / 2048) as u8, (time / 32 % 64) as u8, (time % 32 * 2) as u8)
    }

    /// The time of creation as text.
    pub fn creation_datetime_str(&self) -> (s: String)
        ensures
            s@ == datetime_text(self.creation_date, self.creation_time),
    {
        datetime_str(self.creation_date, self.creation_time)
    }

    /// The time of the last write as text.
    pub fn write_datetime_str(&self) -> (s: String)
        ensures
            s@ == datetime_text(self.write_date, self.write_time),
    {
        datetime_str(self.write_date, self.write_time)
    }

    /// The time of the last access as text.
    pub fn access_datetime_str(&self) -> (s: String)
        ensures
            s@ == datetime_text(self.access_date, self.access_time),
    {
        datetime_str(self.access_date, self.access_time)
    }

    /// Packs a date. Years before 1980 count as 1980.
    pub fn encode_date(year: u16, month: u8, day: u8) -> (date: u16)
        ensures
            date == pack_date(year, month, day),
    {
        let years: u16 = if year >= 1980 { year - 1980 } else { 0 };
        years % 128 * 512 + (month % 16) as u16 * 32 + (day % 32) as u16
    }

    /// Packs a time of day.
    pub fn encode_time(hour: u8, minute: u8, second: u8) -> (time: u16)
        ensures
            time == pack_time(hour, minute, second),
    {
        (hour % 32) as u16 * 2048 + (minute % 64) as u16 * 32 + (second / 2 % 32) as u16
    }
}

/// A date from 1980 to 2107 survives packing.
pub proof fn law_date_roundtrip(year: u16, month: u8, day: u8)
    requires
        1980 <= year <= 2107,
        month <= 15,
        day <= 31,
    ensures
        unpack_date(pack_date(year, month, day)) == (year, month, day),
{
}

/// A time of day survives packing, up to the lowest bit of the seconds.
pub proof fn law_time_roundtrip(hour: u8, minute: u8, second: u8)
    requires
        hour <= 31,
        minute <= 63,
        second <= 63,
    ensures
        unpack_time(pack_time(hour, minute, second)) == (hour, minute, (second - second % 2) as u8),
{
}

/// Every packed date and time is the packed form of what it unpacks to.
pub proof fn law_packed_roundtrip(date: u16, time: u16)
    ensures
        ({
            let (y, m, d) = unpack_date(date);
            pack_date(y, m, d) == date
        }),
        ({
            let (h, m, s) = unpack_time(time);
            pack_time(h, m, s) == time
        }),
{
}

// ---------------------------------------------------------------------------
// Known partitions
// ---------------------------------------------------------------------------

/// A partition of a known drive layout.
#[derive(Debug, Clone, Copy)]
pub struct XboxPartition {
    pub name: &'static str,
    /// Byte offset from the start of the disk.
    pub offset: u64,
    /// Size in bytes; 0 stands for the rest of the disk.
    pub size: u64,
    pub generation: XboxGeneration,
}

/// The partition has this name, offset, size and generation.
pub open spec fn is_partition(
    p: XboxPartition,
    name: Seq<char>,
    offset: u64,
    size: u64,
    generation: XboxGeneration,
) -> bool {
    p.name@ == name && p.offset == offset && p.size == size && p.generation == generation
}

/// The partitions of an original Xbox drive.
pub open spec fn is_og_table(t: Seq<XboxPartition>) -> bool {
    let g = XboxGeneration::Original;
    &&& t.len() == 6
    &&& is_partition(t[0], "Config (CACHE0)"@, 0x0008_0000, 0x02EE_0000, g)
    &&& is_partition(t[1], "Game Cache (CACHE1)"@, 0x02F6_0000, 0x02EE_0000, g)
    &&& is_partition(t[2], "Cache (CACHE2)"@, 0x05E4_0000, 0x02EE_0000, g)
    &&& is_partition(t[3], "System (C)"@, 0x08CA_0000, 0x01F4_0000, g)
    &&& is_partition(t[4], "Data (E)"@, 0x0ABE_0000, 0x1312_D000, g)
    &&& is_partition(t[5], "Extended (F)"@, 0x1DD1_D000, 0, g)
}

/// The partitions of an Xbox 360 drive.
pub open spec fn is_x360_table(t: Seq<XboxPartition>) -> bool {
    let g = XboxGeneration::Xbox360;
    &&& t.len() == 4
    &&& is_partition(t[0], "360 System Cache"@, 0x0008_0000, 0x8000_0000, g)
    &&& is_partition(t[1], "360 Game Content"@, 0x8008_0000, 0xA0E3_0000, g)
    &&& is_partition(t[2], "360 Xbox 1 Compat"@, 0x1_20EB_0000, 0x1000_0000, g)
    &&& is_partition(t[3], "360 Data"@, 0x1_30EB_0000, 0, g)
}

/// The partitions of an original Xbox drive (8 GB and 10 GB).
pub fn og_xbox_partitions() -> (t: Vec<XboxPartition>)
    ensures
        is_og_table(t@),
{
    let g = XboxGeneration::Original;
    vec![
        XboxPartition { name: "Config (CACHE0)", offset: 0x0008_0000, size: 0x02EE_0000, generation: g },
        XboxPartition { name: "Game Cache (CACHE1)", offset: 0x02F6_0000, size: 0x02EE_0000, generation: g },
        XboxPartition { name: "Cache (CACHE2)", offset: 0x05E4_0000, size: 0x02EE_0000, generation: g },
        XboxPartition { name: "System (C)", offset: 0x08CA_0000, size: 0x01F4_0000, generation: g },
        XboxPartition { name: "Data (E)", offset: 0x0ABE_0000, size: 0x1312_D000, generation: g },
        XboxPartition { name: "Extended (F)", offset: 0x1DD1_D000, size: 0, generation: g },
    ]
}

/// The partitions of an Xbox 360 drive, at offsets that are the same for all sizes.
pub fn xbox360_partitions() -> (t: Vec<XboxPartition>)
    ensures
        is_x360_table(t@),
{
    let g = XboxGeneration::Xbox360;
    vec![
        XboxPartition { name: "360 System Cache", offset: 0x0008_0000, size: 0x8000_0000, generation: g },
        XboxPartition { name: "360 Game Content", offset: 0x8008_0000, size: 0xA0E3_0000, generation: g },
        XboxPartition { name: "360 Xbox 1 Compat", offset: 0x1_20EB_0000, size: 0x1000_0000, generation: g },
        XboxPartition { name: "360 Data", offset: 0x1_30EB_0000, size: 0, generation: g },
    ]
}

/// All known partitions: those of the original Xbox, then those of the Xbox 360.
pub fn all_known_partitions() -> (t: Vec<XboxPartition>)
    ensures
        t@.len() == 10,
        is_og_table(t@.take(6)),
        is_x360_table(t@.skip(6)),
{
    let mut all = og_xbox_partitions();
    let mut rest = xbox360_partitions();
    let ghost first = all@;
    let ghost second = rest@;
    all.append(&mut rest);
    assert(all@.take(6) =~= first);
    assert(all@.skip(6) =~= second);
    all
}

} // verus!
