//! Formatting images and filling them with sample content.

use fatxlib::device::{Device, DeviceState, MemoryDevice};
use fatxlib::error::IoError;
use fatxlib::mkimage::{format_bytes, format_image, image_layout, split_size};
use fatxlib::samples::populate_image;
use fatxlib::types::{FatEntry, FatType};
use fatxlib::volume::FatxVolume;

/// A size on the command line, in bytes.
fn parse_size(s: &str) -> Result<u64, String> {
    let s = s.trim();
    let (num_part, multiplier) = split_size(s);
    let num: f64 = num_part
        .parse()
        .map_err(|_| format!("invalid size: '{}'", s))?;
    Ok((num * multiplier as f64) as u64)
}

#[test]
fn test_parse_size_gigabytes() {
    assert_eq!(parse_size("1G").unwrap(), 1024 * 1024 * 1024);
    assert_eq!(parse_size("2g").unwrap(), 2 * 1024 * 1024 * 1024);
}

#[test]
fn test_parse_size_megabytes() {
    assert_eq!(parse_size("512M").unwrap(), 512 * 1024 * 1024);
    assert_eq!(parse_size("64m").unwrap(), 64 * 1024 * 1024);
}

#[test]
fn test_parse_size_kilobytes() {
    assert_eq!(parse_size("1024K").unwrap(), 1024 * 1024);
    assert_eq!(parse_size("256k").unwrap(), 256 * 1024);
}

#[test]
fn test_parse_size_bytes() {
    assert_eq!(parse_size("4096").unwrap(), 4096);
}

#[test]
fn test_parse_size_fractional() {
    assert_eq!(
        parse_size("1.5G").unwrap(),
        (1.5 * 1024.0 * 1024.0 * 1024.0) as u64
    );
    assert_eq!(parse_size("0.5M").unwrap(), 512 * 1024);
}

#[test]
fn test_parse_size_invalid() {
    assert!(parse_size("abc").is_err());
    assert!(parse_size("").is_err());
    assert!(parse_size("G").is_err());
}

#[test]
fn test_parse_size_whitespace() {
    assert_eq!(parse_size("  1G  ").unwrap(), 1024 * 1024 * 1024);
}

#[test]
fn test_format_bytes_display() {
    assert_eq!(format_bytes(500), "500 B");
    assert_eq!(format_bytes(1024), "1.0 KB");
    assert_eq!(format_bytes(1024 * 1024), "1.0 MB");
    assert_eq!(format_bytes(1024 * 1024 * 1024), "1.0 GB");
}

/// The same in floating point.
fn shown(n: u64) -> String {
    const KB: u64 = 1024;
    const MB: u64 = 1024 * KB;
    const GB: u64 = 1024 * MB;
    if n >= GB {
        format!("{:.1} GB", n as f64 / GB as f64)
    } else if n >= MB {
        format!("{:.1} MB", n as f64 / MB as f64)
    } else if n >= KB {
        format!("{:.1} KB", n as f64 / KB as f64)
    } else {
        format!("{} B", n)
    }
}

#[test]
fn sizes_are_rounded_like_floating_point_numbers() {
    let mut n: u64 = 1;
    for step in 0..4000u64 {
        assert_eq!(format_bytes(n), shown(n), "{}", n);
        n = n.wrapping_mul(6364136223846793005).wrapping_add(step);
        let m = n >> (step % 64);
        assert_eq!(format_bytes(m), shown(m), "{}", m);
    }
    for k in 0..4096u64 {
        for unit in [1024u64, 1024 * 1024, 1024 * 1024 * 1024] {
            let m = k * unit / 20;
            assert_eq!(format_bytes(m), shown(m), "{}", m);
        }
    }
    assert_eq!(format_bytes(1280), "1.2 KB");
    assert_eq!(format_bytes(u64::MAX), shown(u64::MAX));
}

fn formatted(size: u64, is_xtaf: bool, spc: u32) -> MemoryDevice {
    let mut dev = MemoryDevice::new(Vec::new());
    format_image(&mut dev, size, is_xtaf, spc).expect("format");
    dev
}

#[test]
fn test_format_fatx_image() {
    let size = 8 * 1024 * 1024;
    let vol = FatxVolume::open(formatted(size, false, 32), 0, 0).expect("open as FATX volume");
    assert_eq!(&vol.superblock.magic, b"FATX");
}

#[test]
fn test_format_xtaf_image() {
    let size = 8 * 1024 * 1024;
    let vol = FatxVolume::open(formatted(size, true, 32), 0, 0).expect("open as XTAF volume");
    assert_eq!(&vol.superblock.magic, b"XTAF");
}

#[test]
fn test_format_image_various_spc() {
    for spc in [1, 2, 4, 8, 16, 32, 64, 128] {
        let size = 8 * 1024 * 1024;
        let mut vol = FatxVolume::open(formatted(size, false, spc), 0, 0)
            .expect(&format!("valid volume spc={}", spc));
        assert_eq!(vol.superblock.sectors_per_cluster, spc);
        assert!(vol.read_root_directory().expect("root").is_empty());
    }
}

#[test]
fn test_format_large_image_fat32() {
    let size = 2u64 * 1024 * 1024 * 1024;
    let (_, fat_type, _) = image_layout(size, false, 32);
    assert_eq!(fat_type, FatType::Fat32);
    let vol = FatxVolume::open(formatted(size, false, 32), 0, 0).expect("open");
    assert_eq!(vol.fat_type, FatType::Fat32);
}

#[test]
fn test_format_small_image_fat16() {
    let size = 8 * 1024 * 1024;
    let vol = FatxVolume::open(formatted(size, false, 32), 0, 0).expect("open");
    assert_eq!(vol.fat_type, FatType::Fat16);
}

#[test]
fn two_images_get_different_volume_ids() {
    let mut ids: Vec<u32> = Vec::new();
    for _ in 0..8 {
        let vol = FatxVolume::open(formatted(4 * 1024 * 1024, false, 32), 0, 0).expect("open");
        ids.push(vol.superblock.volume_id);
    }
    let first = ids[0];
    assert!(ids.iter().any(|id| *id != first));
}

#[test]
fn test_populate_creates_directories_and_files() {
    let size = 64 * 1024 * 1024;
    let mut vol = FatxVolume::open(formatted(size, false, 32), 0, 0).expect("open");
    populate_image(&mut vol).expect("populate");

    let mut vol = FatxVolume::open(vol.into_device(), 0, 0).expect("reopen");

    vol.resolve_path("/Content").expect("Content exists");
    vol.resolve_path("/Content/0000000000000000")
        .expect("profile exists");
    vol.resolve_path("/Cache").expect("Cache exists");
    vol.resolve_path("/Apps").expect("Apps exists");
    vol.resolve_path("/Apps/Aurora").expect("Aurora exists");

    let data = vol.read_file_by_path("/name.txt").expect("read name.txt");
    assert_eq!(&data, b"Test Xbox 360\n");

    let config_entry = vol
        .resolve_path("/Apps/Aurora/config.bin")
        .expect("config.bin exists");
    assert_eq!(config_entry.file_size, 65536);

    let large_entry = vol
        .resolve_path("/Content/testfile_1mb.bin")
        .expect("1mb file exists");
    assert_eq!(large_entry.file_size, 1_048_576);

    let save_dir = vol
        .resolve_path("/Content/0000000000000000/FFFE07D1")
        .expect("game dir exists");
    let entries = vol
        .read_directory(save_dir.first_cluster)
        .expect("readdir saves");
    assert_eq!(entries.len(), 20);
}

#[test]
fn test_populate_xtaf_image() {
    let size = 64 * 1024 * 1024;
    let mut vol = FatxVolume::open(formatted(size, true, 32), 0, 0).expect("open");
    populate_image(&mut vol).expect("populate XTAF");

    let mut vol = FatxVolume::open(vol.into_device(), 0, 0).expect("reopen");
    assert_eq!(&vol.superblock.magic, b"XTAF");
    vol.resolve_path("/Content").expect("Content exists");
    vol.resolve_path("/Apps/Aurora").expect("Aurora exists");
}

#[test]
fn test_fixture_creates_fatx_volume() {
    let mut vol = FatxVolume::open(formatted(4 * 1024 * 1024, false, 32), 0, 0).expect("open");
    assert!(vol.superblock.is_valid());
    assert!(vol.total_clusters > 0);
    let stats = vol.stats().unwrap();
    assert!(stats.free_clusters > 0);
    assert_eq!(stats.bad_clusters, 0);
}

#[test]
fn test_fixture_creates_xtaf_volume() {
    let vol = FatxVolume::open(formatted(4 * 1024 * 1024, true, 32), 0, 0).expect("open");
    assert!(vol.superblock.is_valid());
    assert!(vol.total_clusters > 0);
}

#[test]
fn test_fixture_creates_populated_volume() {
    let mut vol = FatxVolume::open(formatted(256 * 1024 * 1024, false, 32), 0, 0).expect("open");
    populate_image(&mut vol).expect("populate");
    let entries = vol.read_root_directory().unwrap();
    assert!(
        !entries.is_empty(),
        "populated image should have files in root"
    );

    let names: Vec<String> = entries.iter().map(|e| e.filename()).collect();
    assert!(
        names.contains(&"Content".to_string()),
        "should have Content dir"
    );
    assert!(
        names.contains(&"Cache".to_string()),
        "should have Cache dir"
    );
    assert!(
        names.contains(&"name.txt".to_string()),
        "should have name.txt"
    );
}

#[test]
fn populate_names_the_step_that_failed() {
    let mut vol = FatxVolume::open(formatted(512 * 1024, false, 32), 0, 0).expect("open");
    let failure = populate_image(&mut vol).expect_err("a file of 1 MiB does not fit");
    assert_eq!(failure.action, "create testfile_1mb.bin");
    assert_eq!(
        failure.message(),
        "create testfile_1mb.bin: No free clusters available"
    );
    // What was made before the failure stays.
    assert_eq!(vol.read_file_by_path("/name.txt").unwrap(), b"Test Xbox 360\n");
}

/// A device that holds no more than `capacity` bytes.
struct FixedDevice {
    data: Vec<u8>,
    capacity: usize,
}

impl Device for FixedDevice {
    fn state(&self) -> DeviceState {
        unreachable!()
    }

    fn inv(&self) -> bool {
        true
    }

    fn lemma_bounds(&self) {}

    fn size(&mut self) -> Result<u64, IoError> {
        Ok(self.data.len() as u64)
    }

    fn read_exact_at(&mut self, offset: u64, len: usize) -> Result<Vec<u8>, IoError> {
        let start = offset as usize;
        match self.data.get(start..start + len) {
            Some(part) => Ok(part.to_vec()),
            None => Err(IoError::UnexpectedEof),
        }
    }

    fn write_all_at(&mut self, offset: u64, data: &[u8]) -> Result<(), IoError> {
        let start = offset as usize;
        let end = start + data.len();
        if end > self.capacity {
            return Err(IoError::OutOfSpace);
        }
        if end > self.data.len() {
            self.data.resize(end, 0);
        }
        self.data[start..end].copy_from_slice(data);
        Ok(())
    }

    fn set_len(&mut self, size: u64) -> Result<(), IoError> {
        if size > self.capacity as u64 {
            return Err(IoError::OutOfSpace);
        }
        self.data.resize(size as usize, 0);
        Ok(())
    }

    fn flush(&mut self) -> Result<(), IoError> {
        Ok(())
    }
}

#[test]
fn formatting_stops_at_the_first_step_that_does_not_fit() {
    // The length cannot be had: nothing is written.
    let mut short = FixedDevice {
        data: vec![7u8; 4096],
        capacity: 4096,
    };
    let failure = format_image(&mut short, 1024 * 1024, false, 32).expect_err("too short");
    assert_eq!(failure.message(), "I/O error: no storage space");
    assert_eq!(short.data, vec![7u8; 4096]);

    // There is room for the superblock and the table, not for the root directory.
    let mut small = FixedDevice {
        data: Vec::new(),
        capacity: 8192,
    };
    let failure = format_image(&mut small, 8192, false, 32).expect_err("too small");
    assert_eq!(failure.message(), "I/O error: no storage space");
    assert_eq!(&small.data[0..4], b"FATX");
    assert_eq!(&small.data[4096..4102], &[0, 0, 0xF8, 0xFF, 0, 0]);
    assert_eq!(small.data.len(), 8192);

    // There is room for the superblock alone.
    let mut tiny = FixedDevice {
        data: vec![7u8; 100],
        capacity: 4096,
    };
    format_image(&mut tiny, 4096, true, 32).expect_err("too small");
    assert_eq!(&tiny.data[0..4], b"XTAF");
    assert_eq!(tiny.data.len(), 4096);
}

#[test]
fn an_image_has_the_length_that_was_asked_for() {
    for is_xtaf in [false, true] {
        let size = 2 * 1024 * 1024;
        let mut dev = formatted(size, is_xtaf, 32);
        assert_eq!(dev.size().expect("size"), size);
        let mut vol = FatxVolume::open(dev, 0, 0).expect("open");
        assert_eq!(vol.read_fat_entry(1).expect("entry"), FatEntry::EndOfChain);
        assert!(vol.read_root_directory().expect("root").is_empty());
        let (clusters, _, _) = image_layout(size, is_xtaf, 32);
        assert_eq!(vol.stats().expect("stats").free_clusters, clusters - 1);
    }
}

#[test]
fn formatting_cuts_and_clears_what_was_there() {
    let size = 1024 * 1024;
    let mut dev = MemoryDevice::new(vec![7u8; 2 * 1024 * 1024]);
    format_image(&mut dev, size, false, 32).expect("format");
    assert_eq!(dev.size().expect("size"), size);
    let mut vol = FatxVolume::open(dev, 0, 0).expect("open");
    assert_eq!(vol.read_fat_entry(1).expect("entry"), FatEntry::EndOfChain);
    assert!(vol.read_root_directory().expect("root").is_empty());
    // What lies in the rest of the table stays, so no cluster is free.
    assert_eq!(vol.stats().expect("stats").free_clusters, 0);
}

#[test]
fn ordinary_sizes_have_clusters() {
    for size in [2u64 << 20, (2 << 20) + 1, 1 << 30, 1 << 40, 1 << 41] {
        for is_xtaf in [false, true] {
            for spc in [1, 2, 4, 8, 16, 32, 64, 128] {
                let (clusters, _, data_offset) = image_layout(size, is_xtaf, spc);
                assert!(clusters >= 1);
                assert!(data_offset + spc as u64 * 512 <= size);
            }
        }
    }
    assert_eq!(image_layout(2 << 20, false, 32).0, 127);
}
