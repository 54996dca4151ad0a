//! Directory entries in the form they are stored in.

use vstd::prelude::*;
use vstd::utf8::encode_utf8;
use crate::bytes::{
    get_u16, get_u32, lemma_u16_roundtrip, lemma_u32_roundtrip, put_u16, put_u32, u16_bytes,
    u32_bytes,
};
use crate::disk::{
    dirent_bytes, first_bad_char, new_entry, padded_name, parse_dirent, root_entry, stamp_bytes,
    validate_name, Stamp,
};
use crate::error::{FatxError, Result};
use crate::text::chars_of;
use crate::types::{
    DirectoryEntry, DirentView, FileAttributes, DIRENT_SIZE, FIRST_CLUSTER, MAX_FILENAME_LEN,
};
use crate::volume::outcome;

verus! {

/// Reads an entry from its 64 bytes.
pub fn parse_entry(big_endian: bool, raw: &[u8]) -> (e: DirectoryEntry)
    requires
        raw.len() == DIRENT_SIZE,
    ensures
        e@ == parse_dirent(big_endian, raw@),
{
    let mut filename_raw = [0u8; MAX_FILENAME_LEN];
    for i in 0..MAX_FILENAME_LEN
        invariant
            raw.len() == DIRENT_SIZE,
            forall|k: int| 0 <= k < i ==> filename_raw@[k] == raw@[k + 2],
    {
        filename_raw[i] = raw[i + 2];
    }
    assert(filename_raw@ =~= raw@.subrange(2, 44));
    let t: usize = if big_endian { 2 } else { 0 };
    let d: usize = 2 - t;
    DirectoryEntry {
        filename_len: raw[0],
        attributes: FileAttributes::from_bits_truncate(raw[1]),
        filename_raw,
        first_cluster: get_u32(big_endian, raw, 44),
        file_size: get_u32(big_endian, raw, 48),
        creation_time: get_u16(big_endian, raw, 52 + t),
        creation_date: get_u16(big_endian, raw, 52 + d),
        write_time: get_u16(big_endian, raw, 56 + t),
        write_date: get_u16(big_endian, raw, 56 + d),
        access_time: get_u16(big_endian, raw, 60 + t),
        access_date: get_u16(big_endian, raw, 60 + d),
    }
}

fn put_stamp(big_endian: bool, time: u16, date: u16, buf: &mut Vec<u8>)
    ensures
        final(buf)@ == old(buf)@ + stamp_bytes(big_endian, time, date),
{
    if big_endian {
        put_u16(big_endian, date, buf);
        put_u16(big_endian, time, buf);
    } else {
        put_u16(big_endian, time, buf);
        put_u16(big_endian, date, buf);
    }
    assert(buf@ =~= old(buf)@ + stamp_bytes(big_endian, time, date));
}

/// The 64 bytes of an entry.
pub fn serialize_entry(big_endian: bool, e: &DirectoryEntry) -> (raw: Vec<u8>)
    ensures
        raw@ == dirent_bytes(big_endian, e@),
        raw@.len() == DIRENT_SIZE,
{
    let mut raw: Vec<u8> = Vec::new();
    raw.push(e.filename_len);
    raw.push(e.attributes.bits());
    raw.extend_from_slice(e.filename_raw.as_slice());
    put_u32(big_endian, e.first_cluster, &mut raw);
    put_u32(big_endian, e.file_size, &mut raw);
    put_stamp(big_endian, e.creation_time, e.creation_date, &mut raw);
    put_stamp(big_endian, e.write_time, e.write_date, &mut raw);
    put_stamp(big_endian, e.access_time, e.access_date, &mut raw);
    assert(raw@ =~= dirent_bytes(big_endian, e@));
    raw
}

/// An entry that is stored and read back is the same, as long as its name has its full
/// width and no unknown attribute is set.
pub proof fn law_dirent_roundtrip(big_endian: bool, e: DirentView)
    requires
        e.filename_raw.len() == MAX_FILENAME_LEN,
        e.attributes.bits & 0x3F == e.attributes.bits,
    ensures
        dirent_bytes(big_endian, e).len() == DIRENT_SIZE,
        parse_dirent(big_endian, dirent_bytes(big_endian, e)) == e,
{
    let b = dirent_bytes(big_endian, e);
    lemma_u32_roundtrip(big_endian, e.first_cluster);
    lemma_u32_roundtrip(big_endian, e.file_size);
    lemma_u16_roundtrip(big_endian, e.creation_time);
    lemma_u16_roundtrip(big_endian, e.creation_date);
    lemma_u16_roundtrip(big_endian, e.write_time);
    lemma_u16_roundtrip(big_endian, e.write_date);
    lemma_u16_roundtrip(big_endian, e.access_time);
    lemma_u16_roundtrip(big_endian, e.access_date);
    let t = if big_endian { 2int } else { 0int };
    let d = 2 - t;
    assert(b.subrange(2, 44) =~= e.filename_raw);
    assert(b.subrange(44, 48) =~= u32_bytes(big_endian, e.first_cluster));
    assert(b.subrange(48, 52) =~= u32_bytes(big_endian, e.file_size));
    assert(b.subrange(52 + t, 54 + t) =~= u16_bytes(big_endian, e.creation_time));
    assert(b.subrange(52 + d, 54 + d) =~= u16_bytes(big_endian, e.creation_date));
    assert(b.subrange(56 + t, 58 + t) =~= u16_bytes(big_endian, e.write_time));
    assert(b.subrange(56 + d, 58 + d) =~= u16_bytes(big_endian, e.write_date));
    assert(b.subrange(60 + t, 62 + t) =~= u16_bytes(big_endian, e.access_time));
    assert(b.subrange(60 + d, 62 + d) =~= u16_bytes(big_endian, e.access_date));
}

/// Where the stamps of an entry are stored: each has a place for its time and one for its date,
/// in this order on FATX, the other way round on XTAF.
pub proof fn law_stamp_places(big_endian: bool, e: DirentView)
    requires
        e.filename_raw.len() == MAX_FILENAME_LEN,
    ensures
        ({
            let raw = dirent_bytes(big_endian, e);
            let pair = |time: u16, date: u16| if big_endian { (date, time) } else { (time, date) };
            let created = pair(e.creation_time, e.creation_date);
            let written = pair(e.write_time, e.write_date);
            let seen = pair(e.access_time, e.access_date);
            &&& raw.subrange(52, 54) == u16_bytes(big_endian, created.0)
            &&& raw.subrange(54, 56) == u16_bytes(big_endian, created.1)
            &&& raw.subrange(56, 58) == u16_bytes(big_endian, written.0)
            &&& raw.subrange(58, 60) == u16_bytes(big_endian, written.1)
            &&& raw.subrange(60, 62) == u16_bytes(big_endian, seen.0)
            &&& raw.subrange(62, 64) == u16_bytes(big_endian, seen.1)
        }),
{
}

/// Checks that a name can be stored.
pub fn validate_filename(name: &str) -> (r: Result<()>)
    ensures
        outcome(r) == validate_name(name@),
{
    let bytes = name.as_bytes();
    let n: usize = bytes.len();
    if n > MAX_FILENAME_LEN {
        return Err(FatxError::FilenameTooLong(n, MAX_FILENAME_LEN));
    }
    let chars = chars_of(name);
    if chars.len() == 0 {
        return Err(FatxError::FilenameTooLong(0, MAX_FILENAME_LEN));
    }
    let mut i: usize = 0;
    while i < chars.len()
        invariant
            chars@ == name@,
            i <= chars.len(),
            0 < chars.len(),
            encode_utf8(name@).len() <= MAX_FILENAME_LEN,
            first_bad_char(name@, i as int) == first_bad_char(name@, 0),
        decreases chars.len() - i,
    {
        let c = chars[i];
        if c == '\0' || c > '\u{7f}' {
            return Err(FatxError::InvalidFilenameChar(c));
        }
        i = i + 1;
    }
    Ok(())
}

/// The bytes of a name, padded with 0xFF.
pub fn pad_name(name: &str) -> (raw: [u8; MAX_FILENAME_LEN])
    ensures
        raw@ == padded_name(name@),
{
    let bytes = name.as_bytes();
    let mut raw = [0xFFu8; MAX_FILENAME_LEN];
    for i in 0..MAX_FILENAME_LEN
        invariant
            bytes@ == encode_utf8(name@),
            forall|k: int|
                0 <= k < MAX_FILENAME_LEN ==> raw@[k] == (if k < i && k < bytes@.len() {
                    bytes@[k]
                } else {
                    0xFFu8
                }),
    {
        if i < bytes.len() {
            raw[i] = bytes[i];
        }
    }
    assert(raw@ =~= padded_name(name@));
    raw
}

/// The entry of something new.
pub fn make_entry(name: &str, attributes: u8, first_cluster: u32, file_size: u32, now: Stamp) -> (e:
    DirectoryEntry)
    requires
        encode_utf8(name@).len() <= MAX_FILENAME_LEN,
    ensures
        e@ == new_entry(name@, attributes, first_cluster, file_size, now),
{
    DirectoryEntry {
        filename_len: name.as_bytes().len() as u8,
        attributes: FileAttributes { bits: attributes },
        filename_raw: pad_name(name),
        first_cluster,
        file_size,
        creation_time: now.time,
        creation_date: now.date,
        write_time: now.time,
        write_date: now.date,
        access_time: now.time,
        access_date: now.date,
    }
}

/// The entry of the root directory.
pub fn make_root_entry() -> (e: DirectoryEntry)
    ensures
        e@ == root_entry(),
{
    let filename_raw = [0xFFu8; MAX_FILENAME_LEN];
    assert(filename_raw@ =~= root_entry().filename_raw);
    DirectoryEntry {
        filename_len: 1,
        attributes: FileAttributes { bits: FileAttributes::DIRECTORY },
        filename_raw,
        first_cluster: FIRST_CLUSTER,
        file_size: 0,
        creation_time: 0,
        creation_date: 0,
        write_time: 0,
        write_date: 0,
        access_time: 0,
        access_date: 0,
    }
}

} // verus!
