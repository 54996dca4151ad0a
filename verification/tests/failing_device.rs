//! What happens when the device under a volume fails.

use std::cell::Cell;
use std::rc::Rc;

use fatxlib::browser::app::{refresh_entries, App, Key};
use fatxlib::browser::keys::handle_normal_key;
use fatxlib::device::{Device, DeviceState};
use fatxlib::disk::Stamp;
use fatxlib::error::{FatxError, IoError};
use fatxlib::iso::god::convert::{
    convert_iso_to_fatx, ConHeader, ConvertOptions, ProgressLog,
};
use fatxlib::iso::god::source::{
    ContentType, Extent, ReaderSource, TitleExecutionInfo, TitleInfo, TrimMode,
};
use fatxlib::mkimage::{format_image_with_id, image_layout};
use fatxlib::nfs::attrs::{NfsStatus, NfsTime};
use fatxlib::nfs::server::FatxNfs;
use fatxlib::titles::dynamic::{from_folder, resolve_and_cache, TitleCache};
use fatxlib::volume::FatxVolume;

const SIZE: u64 = 4 * 1024 * 1024;
const STAMP: Stamp = Stamp { date: 0x5A21, time: 0x6000 };
const NOW: NfsTime = NfsTime { seconds: 1, nseconds: 0 };
const MIN: usize = 64;

/// A device that fails between two offsets.
struct Flaky {
    data: Vec<u8>,
    broken: Rc<Cell<(u64, u64)>>,
    flushes: Rc<Cell<u32>>,
}

impl Flaky {
    fn check(&self, offset: u64) -> Result<(), IoError> {
        let (from, to) = self.broken.get();
        if from <= offset && offset < to {
            Err(IoError::Device("pulled out".to_string()))
        } else {
            Ok(())
        }
    }
}

impl Device for Flaky {
    fn state(&self) -> DeviceState {
        unreachable!()
    }

    fn inv(&self) -> bool {
        true
    }

    fn lemma_bounds(&self) {}

    fn size(&mut self) -> Result<u64, IoError> {
        self.check(0)?;
        Ok(self.data.len() as u64)
    }

    fn read_exact_at(&mut self, offset: u64, len: usize) -> Result<Vec<u8>, IoError> {
        self.check(offset)?;
        let start = offset as usize;
        match self.data.get(start..start + len) {
            Some(part) => Ok(part.to_vec()),
            None => Err(IoError::UnexpectedEof),
        }
    }

    fn write_all_at(&mut self, offset: u64, data: &[u8]) -> Result<(), IoError> {
        self.check(offset)?;
        let start = offset as usize;
        match self.data.get_mut(start..start + data.len()) {
            Some(part) => {
                part.copy_from_slice(data);
                Ok(())
            }
            None => Err(IoError::OutOfSpace),
        }
    }

    fn set_len(&mut self, size: u64) -> Result<(), IoError> {
        self.check(size)?;
        self.data.resize(size as usize, 0);
        Ok(())
    }

    fn flush(&mut self) -> Result<(), IoError> {
        self.check(0)?;
        self.flushes.set(self.flushes.get() + 1);
        Ok(())
    }
}

fn volume() -> (FatxVolume<Flaky>, Rc<Cell<(u64, u64)>>) {
    let (vol, broken, _) = counting_volume();
    (vol, broken)
}

fn counting_volume() -> (FatxVolume<Flaky>, Rc<Cell<(u64, u64)>>, Rc<Cell<u32>>) {
    let broken = Rc::new(Cell::new((0, 0)));
    let flushes = Rc::new(Cell::new(0));
    let mut dev = Flaky {
        data: Vec::new(),
        broken: Rc::clone(&broken),
        flushes: Rc::clone(&flushes),
    };
    format_image_with_id(&mut dev, SIZE, true, 8, 1).expect("format");
    let mut vol = FatxVolume::open(dev, 0, 0).expect("open");
    vol.create_directory("/4D5307E6").expect("mkdir");
    vol.create_directory("/4D5307E6/000D0000").expect("mkdir");
    vol.create_file("/4D5307E6/000D0000/p", &named("Sub", 300)).expect("create");
    vol.create_file("/4D5307E6/small", &named("", 100)).expect("create");
    vol.create_file("/4D5307E6/large", &named("Large", 200)).expect("create");
    (vol, broken, flushes)
}

fn named(name: &str, len: usize) -> Vec<u8> {
    let mut data = name.as_bytes().to_vec();
    data.resize(len, 0);
    data
}

fn parse(header: &Vec<u8>) -> Option<String> {
    let name: Vec<u8> = header.iter().copied().take_while(|b| *b != 0).collect();
    String::from_utf8(name).ok()
}

/// The bytes of the first cluster of what a path leads to.
fn first_cluster(vol: &mut FatxVolume<Flaky>, path: &str) -> (u64, u64) {
    let entry = vol.resolve_path(path).expect("resolve");
    let (_, _, data) = image_layout(SIZE, true, 8);
    let start = data + (entry.first_cluster as u64 - 1) * 4096;
    (start, start + 4096)
}

fn is_io<T>(r: Result<T, FatxError>) -> bool {
    matches!(r, Err(FatxError::Io(_)))
}

#[test]
fn errors_of_the_device_end_the_search_for_a_name() {
    let (mut vol, broken) = volume();
    let folder = "/4D5307E6";
    assert_eq!(
        from_folder(&mut vol, folder, MIN, &parse).expect("read"),
        Some("Large".to_string())
    );
    for path in ["/4D5307E6/000D0000", "/4D5307E6/small", "/4D5307E6/large"] {
        let place = first_cluster(&mut vol, path);
        broken.set(place);
        assert!(is_io(from_folder(&mut vol, folder, MIN, &parse)));
        let mut cache = TitleCache::new();
        let save = |_: &TitleCache| None;
        let r = resolve_and_cache(&mut vol, folder, true, &mut cache, MIN, &parse, &save);
        assert!(is_io(r));
        assert!(cache.lookup(0x4D5307E6).is_none());
        broken.set((0, 0));
    }
    // A file that is not reached does not matter.
    let place = first_cluster(&mut vol, "/4D5307E6/000D0000/p");
    broken.set(place);
    assert_eq!(
        from_folder(&mut vol, folder, MIN, &parse).expect("read"),
        Some("Large".to_string())
    );
}

#[test]
fn requests_are_refused_before_the_device_is_asked() {
    let (vol, broken) = volume();
    broken.set((0, SIZE));
    let mut s = FatxNfs::new(vol, true);
    assert_eq!(s.remove(1, b"4D5307E6"), Err(NfsStatus::Rofs));
    assert_eq!(s.create(1, b"a", STAMP), Err(NfsStatus::Rofs));
    assert_eq!(s.create_exclusive(1, b"a", STAMP), Err(NfsStatus::Rofs));
    assert_eq!(s.mkdir(1, b"a", STAMP), Err(NfsStatus::Rofs));
    assert_eq!(s.rename(1, b"a", 1, b"b"), Err(NfsStatus::Rofs));
    assert_eq!(s.write(2, 0, b"x", STAMP, NOW), Err(NfsStatus::Rofs));
    assert_eq!(s.lookup(1, b"."), Ok(1));
    assert_eq!(s.lookup(1, b".."), Ok(1));
    assert!(s.getattr(1, NOW).is_ok());
    assert_eq!(s.lookup(1, b"4D5307E6"), Err(NfsStatus::Io));

    let (vol, broken) = volume();
    broken.set((0, SIZE));
    let mut s = FatxNfs::new(vol, false);
    assert_eq!(s.create(1, b".DS_Store", STAMP), Err(NfsStatus::Perm));
    assert_eq!(s.mkdir(1, b"._x", STAMP), Err(NfsStatus::Perm));
    assert_eq!(s.create_exclusive(1, &[0xFF], STAMP), Err(NfsStatus::Inval));
    assert_eq!(s.rename(1, b"a", 2, b"b"), Err(NfsStatus::NotSupp));
    assert_eq!(s.remove(1, b"4D5307E6"), Err(NfsStatus::Io));
}

#[test]
fn what_is_remembered_is_served_without_the_device() {
    let (vol, broken) = volume();
    let mut s = FatxNfs::new(vol, false);
    let dir = s.lookup(1, b"4D5307E6").expect("lookup");
    let large = s.lookup(dir, b"large").expect("lookup");
    let all = s.read(large, 0, 1000).expect("read");
    broken.set((0, SIZE));
    assert_eq!(s.lookup(dir, b"LARGE"), Ok(large));
    assert_eq!(s.read(large, 0, 1000), Ok(all));
    assert_eq!(s.getattr(large, NOW).expect("attributes").size, 200);
    assert_eq!(s.readdir(dir, 0, 100, NOW).expect("list").entries.len(), 5);
    let small = s.lookup(dir, b"small").expect("lookup");
    assert_eq!(s.read(small, 0, 1000), Err(NfsStatus::Io));
}

#[test]
fn moving_needs_no_device() {
    let (mut vol, broken) = volume();
    let mut app = App::new("Data", "disk", "/tmp");
    app.cwd = "/4D5307E6".to_string();
    refresh_entries(&mut app, &mut vol);
    assert_eq!(app.entries.len(), 3);
    broken.set((0, SIZE));
    for (key, want) in [
        (Key::Down, 1),
        (Key::End, 2),
        (Key::Up, 1),
        (Key::PageDown, 2),
        (Key::PageUp, 0),
        (Key::Char('j'), 1),
        (Key::Home, 0),
    ] {
        handle_normal_key(&mut app, &mut vol, key);
        assert_eq!(app.selected, Some(want));
        assert!(!app.status_is_error);
        assert!(!app.should_quit);
    }
    // Opening a directory asks the device, and its words are shown.
    handle_normal_key(&mut app, &mut vol, Key::Enter);
    assert!(app.status_is_error);
    assert_eq!(app.status, "Error: I/O error: pulled out");
    assert!(!app.should_quit);
}

#[test]
fn flushing_reaches_the_device() {
    let (mut vol, broken, flushes) = counting_volume();
    let before = flushes.get();
    vol.flush().expect("flush");
    assert_eq!(flushes.get(), before + 1);
    broken.set((0, SIZE));
    assert!(is_io(vol.flush()));
    broken.set((0, 0));

    let mut s = FatxNfs::new(vol, false);
    let before = flushes.get();
    let (id, _) = s.create(1, b"a", STAMP).expect("create");
    s.write(id, 0, b"x", STAMP, NOW).expect("write");
    s.rename(1, b"a", 1, b"b").expect("rename");
    s.remove(1, b"b").expect("remove");
    s.mkdir(1, b"d", STAMP).expect("mkdir");
    s.remove(1, b"4D5307E6").expect("remove all of it");
    assert_eq!(flushes.get(), before + 6);

    let (mut vol, _, flushes) = counting_volume();
    let mut app = App::new("Data", "disk", "/tmp");
    let before = flushes.get();
    handle_normal_key(&mut app, &mut vol, Key::Char('q'));
    assert!(app.should_quit);
    assert_eq!(flushes.get(), before + 1);
}

fn title() -> TitleInfo {
    TitleInfo {
        execution_info: TitleExecutionInfo {
            media_id: 1,
            version: 0,
            base_version: 0,
            title_id: 2,
            platform: 0,
            executable_type: 0,
            disc_number: 1,
            disc_count: 1,
        },
        content_type: ContentType::GamesOnDemand,
    }
}

fn image(broken: (u64, u64)) -> Flaky {
    Flaky {
        data: vec![3u8; 10_000],
        broken: Rc::new(Cell::new(broken)),
        flushes: Rc::new(Cell::new(0)),
    }
}

fn encode(_: &ConHeader) -> Vec<u8> {
    vec![9u8; 100]
}

#[test]
fn a_dry_run_asks_for_the_size_of_the_image_only_where_it_counts() {
    let (mut vol, _) = volume();
    let extents = vec![Extent { sector: 1, size: 3000 }];
    for (trim, works) in [(TrimMode::PreserveLayout, true), (TrimMode::Untrimmed, false)] {
        let mut opts: ConvertOptions<ProgressLog, fn() -> bool> = ConvertOptions {
            trim,
            game_title: None,
            dry_run: true,
            progress: None,
            should_abort: None,
        };
        let reader = ReaderSource::Raw {
            image: image((0, u64::MAX)),
            root_offset: 0,
        };
        let r = convert_iso_to_fatx(reader, title(), &extents, &mut vol, "/", &mut opts, &encode);
        match r {
            Ok(report) => {
                assert!(works);
                assert_eq!(report.data_size, 2048 + 3000);
                assert_eq!((report.block_count, report.part_count), (2, 1));
            }
            Err(e) => {
                assert!(!works);
                assert_eq!(e.message(), "I/O error: pulled out");
            }
        }
    }
}

#[test]
fn progress_is_told_up_to_the_failure() {
    let (mut vol, broken) = volume();
    let pull_out = || {
        broken.set((0, SIZE));
        false
    };
    let mut opts = ConvertOptions {
        trim: TrimMode::Untrimmed,
        game_title: None,
        dry_run: false,
        progress: Some(ProgressLog { events: Vec::new() }),
        should_abort: Some(pull_out),
    };
    let reader = ReaderSource::Raw {
        image: image((0, 0)),
        root_offset: 0,
    };
    let r = convert_iso_to_fatx(reader, title(), &vec![], &mut vol, "/", &mut opts, &encode);
    assert!(is_io(r));
    let told: Vec<(String, u64, u64)> = opts
        .progress
        .expect("log")
        .events
        .into_iter()
        .map(|e| (e.stage, e.current, e.total))
        .collect();
    assert_eq!(told, vec![("parts".to_string(), 0, 1)]);
}
