//! Types of the file system and their text.

use fatxlib::dirent::{make_entry, parse_entry, serialize_entry, validate_filename};
use fatxlib::disk::Stamp;
use fatxlib::error::{FatxError, IoError};
use fatxlib::types::{
    all_known_partitions, og_xbox_partitions, xbox360_partitions, DirectoryEntry, FatType,
    FileAttributes, Superblock, XboxGeneration,
};

#[test]
fn packed_dates_and_times() {
    assert_eq!(DirectoryEntry::encode_date(2024, 3, 15), (44 << 9) | (3 << 5) | 15);
    assert_eq!(DirectoryEntry::encode_time(14, 30, 22), (14 << 11) | (30 << 5) | 11);
    for (y, m, d) in [(1980u16, 1u8, 1u8), (2000, 2, 29), (2107, 12, 31)] {
        assert_eq!(
            DirectoryEntry::decode_date(DirectoryEntry::encode_date(y, m, d)),
            (y, m, d)
        );
    }
    for raw in [0u16, 1, 0x5A21, 0x6C40, 0xFFFF] {
        let (y, m, d) = DirectoryEntry::decode_date(raw);
        assert_eq!(DirectoryEntry::encode_date(y, m, d), raw);
    }
}

#[test]
fn entries_survive_being_stored() {
    let now = Stamp {
        date: DirectoryEntry::encode_date(2024, 3, 5),
        time: DirectoryEntry::encode_time(4, 30, 2),
    };
    let entry = make_entry("save.bin", FileAttributes::ARCHIVE, 77, 12345, now);
    for big_endian in [false, true] {
        let raw = serialize_entry(big_endian, &entry);
        assert_eq!(raw.len(), 64);
        let back = parse_entry(big_endian, &raw);
        assert_eq!(back.filename(), "save.bin");
        assert_eq!(back.first_cluster, 77);
        assert_eq!(back.file_size, 12345);
        assert_eq!(back.write_datetime_str(), "2024-03-05 04:30:02");
        assert_eq!(back.creation_datetime_str(), "2024-03-05 04:30:02");
        assert_eq!(back.access_datetime_str(), "2024-03-05 04:30:02");
        assert!(!back.is_directory());
        assert!(!back.is_deleted());
        assert!(!back.is_end());
    }
    assert!(validate_filename("ok.txt").is_ok());
    assert!(matches!(
        validate_filename("a\0b"),
        Err(FatxError::InvalidFilenameChar('\0'))
    ));
}

#[test]
fn attributes_are_bits() {
    let a = FileAttributes::from_bits_truncate(0xFF);
    assert_eq!(a.bits(), 0x3F);
    assert!(a.contains(FileAttributes::READ_ONLY | FileAttributes::HIDDEN));
    let d = FileAttributes::from_bits_truncate(FileAttributes::DIRECTORY);
    assert!(d.contains(FileAttributes::DIRECTORY));
    assert!(!d.contains(FileAttributes::SYSTEM));
}

#[test]
fn superblocks_tell_the_console() {
    let sb = |magic: [u8; 4]| Superblock {
        magic,
        volume_id: 1,
        sectors_per_cluster: 32,
        fat_copies: 1,
    };
    assert_eq!(sb(*b"FATX").generation(), XboxGeneration::Original);
    assert_eq!(sb(*b"XTAF").generation(), XboxGeneration::Xbox360);
    assert_eq!(sb(*b"FATX").magic_str(), "FATX");
    assert_eq!(sb(*b"XTAF").magic_str(), "XTAF");
    assert!(!sb(*b"NOPE").is_valid());
    assert_eq!(sb(*b"FATX").cluster_size(), 16384);
    assert_eq!(FatType::Fat16.entry_size(), 2);
    assert_eq!(FatType::Fat32.entry_size(), 4);
}

#[test]
fn partitions_of_known_drives() {
    let og = og_xbox_partitions();
    let x360 = xbox360_partitions();
    assert_eq!(og.len(), 6);
    assert_eq!(x360.len(), 4);
    assert_eq!(og[4].name, "Data (E)");
    assert_eq!(og[4].offset, 0x0ABE_0000);
    assert_eq!(x360[3].name, "360 Data");
    assert_eq!(x360[3].offset, 0x1_30EB_0000);
    assert_eq!(x360[3].size, 0);
    let all = all_known_partitions();
    let names: Vec<&str> = all.iter().map(|p| p.name).collect();
    let want: Vec<&str> = og.iter().chain(x360.iter()).map(|p| p.name).collect();
    assert_eq!(names, want);
}

#[test]
fn errors_speak() {
    let cases: Vec<(FatxError, &str)> = vec![
        (FatxError::Io(IoError::UnexpectedEof), "I/O error: failed to fill whole buffer"),
        (FatxError::Io(IoError::Device("gone".to_string())), "I/O error: gone"),
        (
            FatxError::VolumeTooSmall,
            "Volume is too small to contain a valid FATX filesystem",
        ),
        (
            FatxError::ClusterOutOfRange(9, 5),
            "Cluster 9 is out of range (max 5)",
        ),
        (FatxError::FilenameTooLong(50, 42), "Filename too long: 50 chars (max 42)"),
        (FatxError::InvalidFilenameChar('*'), "Invalid filename character: '*'"),
        (FatxError::DiskFull, "No free clusters available"),
        (FatxError::DirectoryFull, "Directory is full (no free entry slots)"),
        (FatxError::CorruptChain(12), "Corrupt FAT chain at cluster 12"),
        (
            FatxError::NoPartitionFound,
            "No FATX partition found at the expected offset",
        ),
        (FatxError::Other("words".to_string()), "words"),
    ];
    for (e, words) in cases {
        assert_eq!(e.message(), words);
    }
}
