//! Names of titles.

use fatxlib::device::MemoryDevice;
use fatxlib::error::FatxError;
use fatxlib::mkimage::format_image;
use fatxlib::titles::catalog::ListedTitle;
use fatxlib::titles::dynamic::{
    from_file, from_folder, resolve_and_cache, scan_folder_files, title_id_from_path, FileCache,
    ResolveOutcome, TitleCache,
};
use fatxlib::titles::{lookup, Catalog, Source};
use fatxlib::volume::FatxVolume;

#[test]
fn extracts_id_from_clean_path() {
    assert_eq!(
        title_id_from_path("/Content/0000000000000000/4D5307E6"),
        Some(0x4D5307E6)
    );
}

#[test]
fn extracts_id_with_trailing_slash() {
    assert_eq!(
        title_id_from_path("/Content/0000000000000000/4D5307E6/"),
        Some(0x4D5307E6)
    );
}

#[test]
fn rejects_wrong_length() {
    // 16-hex (XUID) and short hex shouldn't match the title-ID slot.
    assert_eq!(title_id_from_path("/Content/0000000000000000"), None);
    assert_eq!(title_id_from_path("/Content/0000/AB"), None);
}

#[test]
fn rejects_non_hex() {
    assert_eq!(
        title_id_from_path("/Content/0000000000000000/HelloAll"),
        None
    );
}

#[test]
fn title_ids_are_eight_hexadecimal_digits() {
    assert_eq!(title_id_from_path("4d5307e6"), Some(0x4D5307E6));
    assert_eq!(title_id_from_path("/Content/0000000000000000/+D5307E6"), None);
    assert_eq!(title_id_from_path("/x/-1234567"), None);
    assert_eq!(title_id_from_path("/x/FFFFFFFF///"), Some(u32::MAX));
    assert_eq!(title_id_from_path("/"), None);
    assert_eq!(title_id_from_path(""), None);
}

// ---------------------------------------------------------------------------
// Catalog
// ---------------------------------------------------------------------------

fn listed(title_id: u32, name: &str) -> ListedTitle {
    ListedTitle { title_id, name: name.to_string() }
}

#[test]
fn the_name_of_the_original_console_counts() {
    let catalog = Catalog::merge(
        &vec![listed(1, "one"), listed(2, "two (360)"), listed(4, "old"), listed(4, "new")],
        &vec![listed(2, "Two"), listed(3, "Three")],
    );
    let found = |id: u32| lookup(&catalog, id).map(|t| (t.name.to_string(), t.source));
    assert_eq!(found(1), Some(("one".to_string(), Source::Xbox360)));
    assert_eq!(found(2), Some(("Two".to_string(), Source::Both)));
    assert_eq!(found(3), Some(("Three".to_string(), Source::XboxOriginal)));
    assert_eq!(found(4), Some(("new".to_string(), Source::Xbox360)));
    assert_eq!(found(5), None);
}

// ---------------------------------------------------------------------------
// Packages on the volume
// ---------------------------------------------------------------------------

const MIN: usize = 64;

/// A header is "NAME", then the name up to a zero.
fn parse(header: &Vec<u8>) -> Option<String> {
    if header.len() < 8 || &header[..4] != b"NAME" {
        return None;
    }
    let name: Vec<u8> = header[4..].iter().copied().take_while(|b| *b != 0).collect();
    String::from_utf8(name).ok()
}

fn package(name: &str, len: usize) -> Vec<u8> {
    let mut data = b"NAME".to_vec();
    data.extend_from_slice(name.as_bytes());
    data.resize(len, 0);
    data
}

fn volume() -> FatxVolume<MemoryDevice> {
    let size = 8 * 1024 * 1024;
    let mut dev = MemoryDevice::new(Vec::new());
    format_image(&mut dev, size as u64, true, 8).expect("format");
    let mut vol = FatxVolume::open(dev, 0, 0).expect("open");
    for dir in ["/C", "/C/4D5307E6", "/C/4D5307E6/000D0000", "/C/4D5307E6/00000002"] {
        vol.create_directory(dir).expect("mkdir");
    }
    vol
}

const FOLDER: &str = "/C/4D5307E6/";

#[test]
fn names_come_from_single_files() {
    let mut vol = volume();
    vol.create_file("/p", &package("Game", 100)).expect("create");
    vol.create_file("/short", &package("Game", 63)).expect("create");
    vol.create_file("/blank", &package("", 100)).expect("create");
    vol.create_file("/other", &vec![1u8; 100]).expect("create");
    assert_eq!(from_file(&mut vol, "/p", MIN, &parse).expect("read"), Some("Game".to_string()));
    assert_eq!(from_file(&mut vol, "/short", MIN, &parse).expect("read"), None);
    assert_eq!(from_file(&mut vol, "/blank", MIN, &parse).expect("read"), None);
    assert_eq!(from_file(&mut vol, "/other", MIN, &parse).expect("read"), None);
    assert_eq!(from_file(&mut vol, "/C", MIN, &parse).expect("read"), None);
    assert!(matches!(
        from_file(&mut vol, "/nope", MIN, &parse),
        Err(FatxError::FileNotFound(_))
    ));
}

#[test]
fn the_smallest_package_names_the_folder() {
    let mut vol = volume();
    assert_eq!(from_folder(&mut vol, FOLDER, MIN, &parse).expect("read"), None);
    vol.create_file("/C/4D5307E6/big", &package("Big", 9000)).expect("create");
    vol.create_file("/C/4D5307E6/junk", &vec![7u8; 70]).expect("create");
    assert_eq!(
        from_folder(&mut vol, FOLDER, MIN, &parse).expect("read"),
        Some("Big".to_string())
    );
    vol.create_file("/C/4D5307E6/000D0000/small", &package("Small", 200)).expect("create");
    vol.create_file("/C/4D5307E6/00000002/same", &package("Same size", 200)).expect("create");
    vol.create_file("/C/4D5307E6/00000002/tiny", &package("Tiny", 20)).expect("create");
    assert_eq!(
        from_folder(&mut vol, FOLDER, MIN, &parse).expect("read"),
        Some("Small".to_string())
    );
    // Only one level below the folder is looked at.
    vol.create_directory("/C/4D5307E6/000D0000/deep").expect("mkdir");
    vol.create_file("/C/4D5307E6/000D0000/deep/d", &package("Deep", 65)).expect("create");
    assert_eq!(
        from_folder(&mut vol, FOLDER, MIN, &parse).expect("read"),
        Some("Small".to_string())
    );
    assert_eq!(
        from_folder(&mut vol, "/C/4D5307E6/big", MIN, &parse).expect("read"),
        None
    );
    assert!(from_folder(&mut vol, "/nope", MIN, &parse).is_err());
}

#[test]
fn resolved_names_are_remembered() {
    let mut vol = volume();
    let mut cache = TitleCache::new();
    let save = |c: &TitleCache| c.lookup(0x4D5307E6).map(|n| format!("saved {}", n));
    let r = resolve_and_cache(&mut vol, "/C/4D53", true, &mut cache, MIN, &parse, &save);
    assert!(matches!(
        r,
        Ok(ResolveOutcome::BadTitleIdInPath { last_segment }) if last_segment == "4D53"
    ));
    let r = resolve_and_cache(&mut vol, FOLDER, true, &mut cache, MIN, &parse, &save);
    assert!(matches!(r, Ok(ResolveOutcome::NoStfs)));
    assert!(cache.lookup(0x4D5307E6).is_none());
    vol.create_file("/C/4D5307E6/p", &package("Game", 100)).expect("create");
    let r = resolve_and_cache(&mut vol, FOLDER, false, &mut cache, MIN, &parse, &save);
    assert!(matches!(
        r,
        Ok(ResolveOutcome::Resolved { title_id: 0x4D5307E6, name, saved_to: None }) if name == "Game"
    ));
    assert_eq!(cache.lookup(0x4D5307E6), Some(&"Game".to_string()));
    let r = resolve_and_cache(&mut vol, FOLDER, true, &mut cache, MIN, &parse, &save);
    assert!(matches!(
        r,
        Ok(ResolveOutcome::Resolved { saved_to: Some(p), .. }) if p == "saved Game"
    ));
    let r = resolve_and_cache(&mut vol, "/nope/12345678", true, &mut cache, MIN, &parse, &save);
    assert!(matches!(r, Err(FatxError::FileNotFound(_))));
}

#[test]
fn folders_are_scanned_file_by_file() {
    let mut vol = volume();
    let dir = "/C/4D5307E6/000D0000";
    let mut cache = FileCache::new();
    let save = |_: &FileCache| Some("there".to_string());
    let s = scan_folder_files(&mut vol, dir, true, &mut cache, MIN, &parse, &save).expect("scan");
    assert_eq!((s.resolved, s.skipped, s.saved_to), (0, 0, None));
    vol.create_file(&format!("{}/a", dir), &package("A", 100)).expect("create");
    vol.create_file(&format!("{}/b", dir), &vec![0u8; 100]).expect("create");
    vol.create_file(&format!("{}/c", dir), &package("C", 100)).expect("create");
    vol.create_directory(&format!("{}/sub", dir)).expect("mkdir");
    cache.insert(format!("{}/a", dir), "old".to_string());
    let s = scan_folder_files(&mut vol, &format!("{}//", dir), true, &mut cache, MIN, &parse, &save)
        .expect("scan");
    assert_eq!((s.resolved, s.skipped, s.saved_to), (2, 1, Some("there".to_string())));
    assert_eq!(cache.lookup(&format!("{}/a", dir)), Some(&"A".to_string()));
    assert_eq!(cache.lookup(&format!("{}/b", dir)), None);
    assert_eq!(cache.lookup(&format!("{}/c", dir)), Some(&"C".to_string()));
    let s = scan_folder_files(&mut vol, &format!("{}/a", dir), true, &mut cache, MIN, &parse, &save)
        .expect("scan");
    assert_eq!((s.resolved, s.skipped, s.saved_to), (0, 0, None));
    assert!(scan_folder_files(&mut vol, "/nope", true, &mut cache, MIN, &parse, &save).is_err());
}
