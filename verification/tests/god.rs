//! Packing disc images.

use std::collections::BTreeMap;

use fatxlib::bytes::Bytes;
use fatxlib::device::MemoryDevice;
use fatxlib::disk::Stamp;
use fatxlib::error::{FatxError, Result};
use fatxlib::iso::god::convert::{
    convert_iso, convert_iso_to_fatx, run_conversion, ConHeader, ConvertOptions, ProgressLog,
};
use fatxlib::iso::god::hash_list::HashList;
use fatxlib::iso::god::package::{GodSink, PackagePaths, PathsView, Step};
use fatxlib::iso::god::part::{fill_part_buf, part_payload_bytes};
use fatxlib::iso::god::source::{
    build_report, end_of_extents, CompactSource, ContentType, ConvertReport, Extent,
    PreparedSource, ReaderSource, TitleExecutionInfo, TitleInfo, TrimMode,
};
use fatxlib::iso::god::{MAX_PART_BYTES, PART_DATA};
use fatxlib::iso2god::god::write_part;
use fatxlib::mkimage::format_image;
use fatxlib::text::Text;
use fatxlib::volume::FatxVolume;
use sha1::{Digest, Sha1};

/// A place that must not be used.
struct NoopSink;

impl GodSink for NoopSink {
    type State = ();
    type Fixed = ();

    fn package_state(&self) {}

    fn fixed(&self) {}

    fn ready(&self) -> bool {
        true
    }

    fn dependable(&self) -> bool {
        true
    }

    fn can_patch(&self) -> bool {
        true
    }

    fn settled(&self) -> bool {
        true
    }

    fn after_begin(_: (), _: PathsView, _: Stamp) -> Step<()> {
        ((), Ok(()))
    }

    fn after_write(_: (), _: Text, _: Bytes, _: Stamp) -> Step<()> {
        ((), Ok(()))
    }

    fn after_patch(_: (), _: Text, _: Bytes) -> Step<()> {
        ((), Ok(()))
    }

    fn begin(&mut self, _paths: &PackagePaths, _now: Stamp) -> Result<()> {
        unreachable!("zero-part source should fail before sink begin")
    }

    fn write_part(&mut self, _path: &str, _data: &[u8], _now: Stamp) -> Result<()> {
        unreachable!("zero-part source should fail before part writes")
    }

    fn write_master_hash(&mut self, _path: &str, _page: &[u8]) -> Result<()> {
        unreachable!("zero-part source should fail before hash writes")
    }

    fn write_con_header(&mut self, _path: &str, _bytes: &[u8], _now: Stamp) -> Result<()> {
        unreachable!("zero-part source should fail before header write")
    }

    fn flush_stage(&mut self) {
        unreachable!("zero-part source should fail before any flush")
    }
}

#[test]
fn run_conversion_rejects_zero_part_sources() {
    let mut source = PreparedSource {
        report: ConvertReport {
            title_id: 0,
            media_id: 0,
            content_type: ContentType::GamesOnDemand,
            part_count: 0,
            block_count: 0,
            data_size: 0,
        },
        exe_info: TitleExecutionInfo {
            media_id: 0,
            version: 0,
            base_version: 0,
            title_id: 0,
            platform: 0,
            executable_type: 0,
            disc_number: 0,
            disc_count: 0,
        },
        content_type: ContentType::GamesOnDemand,
        image: MemoryDevice::new(Vec::new()),
        root_offset: 0,
    };
    let mut sink = NoopSink;
    let mut opts: ConvertOptions<ProgressLog, fn() -> bool> = ConvertOptions {
        trim: TrimMode::Compact,
        game_title: None,
        dry_run: false,
        progress: None,
        should_abort: None,
    };
    let encode = |_: &ConHeader| Vec::new();

    let err = run_conversion(&mut source, &mut sink, &mut opts, &encode, "", "convert_iso");
    assert!(
        matches!(err, Err(FatxError::Other(msg)) if msg.contains("source has no data")),
        "zero-part source should be rejected before any sink work"
    );
}

// ---------------------------------------------------------------------------
// Parts
// ---------------------------------------------------------------------------

fn hash(data: &[u8]) -> Vec<u8> {
    Sha1::digest(data).to_vec()
}

fn pattern(n: usize) -> Vec<u8> {
    (0..n as u64).map(|i| (i.wrapping_mul(2654435761) >> 13) as u8).collect()
}

/// A Data file, built the long way round.
fn expected_part(data: &[u8], extra: Option<&[u8]>) -> Vec<u8> {
    let mut master: Vec<u8> = Vec::new();
    let mut body: Vec<u8> = Vec::new();
    for subpart in data.chunks(0xcc000) {
        let mut page: Vec<u8> = Vec::new();
        for block in subpart.chunks(0x1000) {
            page.extend_from_slice(&hash(block));
        }
        page.resize(0x1000, 0);
        master.extend_from_slice(&hash(&page));
        body.extend_from_slice(&page);
        body.extend_from_slice(subpart);
    }
    if let Some(next) = extra {
        master.extend_from_slice(next);
    }
    master.resize(0x1000, 0);
    master.extend_from_slice(&body);
    master
}

#[test]
fn hashes_are_those_of_sha1() {
    let mut list = HashList::new();
    list.add_block_hash(b"hello world");
    let page = list.bytes();
    let known = [
        0x2a, 0xae, 0x6c, 0x35, 0xc9, 0x4f, 0xcf, 0xb4, 0x15, 0xdb, 0xe9, 0x5f, 0x40, 0x8b, 0x9c,
        0xe9, 0x1e, 0xe8, 0x46, 0xed,
    ];
    assert_eq!(page[..20], known);
    assert_eq!(page.len(), 4096);
    assert!(page[20..].iter().all(|b| *b == 0));
    assert_eq!(list.digest(), hash(&page));
}

#[test]
fn parts_hold_the_image_and_its_hashes() {
    let data = pattern(0xcc000 * 2 + 5000);
    let mut dev = MemoryDevice::new(data.clone());
    let (part, master) = fill_part_buf(&mut dev, 0, 0, data.len() as u64).expect("part");
    assert_eq!(part, expected_part(&data, None));
    assert_eq!(part[..4096], master.bytes()[..]);
    assert_eq!(part.len(), 4096 + 3 * 4096 + data.len());

    // The image starts later, and only some of it is wanted.
    let (part, _) = fill_part_buf(&mut dev, 100, 0, 9000).expect("part");
    assert_eq!(part, expected_part(&data[100..9100], None));
    // More is wanted than there is.
    let (part, _) = fill_part_buf(&mut dev, data.len() as u64 - 10, 0, 9000).expect("part");
    assert_eq!(part, expected_part(&data[data.len() - 10..], None));
    // Nothing is left.
    let (part, _) = fill_part_buf(&mut dev, 0, 1, 9000).expect("part");
    assert_eq!(part, vec![0u8; 4096]);
    // Nothing is wanted.
    let (part, _) = fill_part_buf(&mut dev, 0, 0, 0).expect("part");
    assert_eq!(part, vec![0u8; 4096]);
    // All of the image, whatever is wanted.
    assert_eq!(
        write_part(&mut dev, 0, 0).expect("part"),
        expected_part(&data, None)
    );
}

#[test]
fn payloads_add_up() {
    for data_size in [0u64, 1, 4096, PART_DATA - 1, PART_DATA, PART_DATA + 1, 8_738_846_720] {
        let report = build_report(1, 2, ContentType::GamesOnDemand, data_size);
        let sum: u64 = (0..report.part_count)
            .map(|i| part_payload_bytes(data_size, i))
            .sum();
        assert_eq!(sum, data_size);
        assert_eq!(part_payload_bytes(data_size, report.part_count), 0);
        assert_eq!(report.block_count, (data_size + 4095) / 4096);
    }
    assert_eq!(part_payload_bytes(u64::MAX, u64::MAX), 0);
    assert_eq!(MAX_PART_BYTES, 0x1000 * 0xa290);
    let report = build_report(1, 2, ContentType::GamesOnDemand, 8_738_846_720);
    assert_eq!(report.part_count, 52);
}

#[test]
fn the_end_of_the_last_file() {
    assert_eq!(end_of_extents(&vec![]), 0);
    let extents = vec![
        Extent { sector: 40, size: 0 },
        Extent { sector: 33, size: 5000 },
        Extent { sector: 34, size: 1 },
        Extent { sector: u32::MAX, size: 0 },
    ];
    assert_eq!(end_of_extents(&extents), 33 * 2048 + 5000);
    assert_eq!(
        end_of_extents(&vec![Extent { sector: u32::MAX, size: u32::MAX }]),
        2048 * (u32::MAX as u64) + u32::MAX as u64
    );
}

// ---------------------------------------------------------------------------
// Packages
// ---------------------------------------------------------------------------

fn title(content_type: ContentType) -> TitleInfo {
    TitleInfo {
        execution_info: TitleExecutionInfo {
            media_id: 0x1234ABCD,
            version: 1,
            base_version: 1,
            title_id: 0x4D5307E6,
            platform: 2,
            executable_type: 1,
            disc_number: 1,
            disc_count: 1,
        },
        content_type,
    }
}

fn volume(size: usize) -> FatxVolume<MemoryDevice> {
    let mut dev = MemoryDevice::new(Vec::new());
    format_image(&mut dev, size as u64, true, 32).expect("format");
    FatxVolume::open(dev, 0, 0).expect("open")
}

fn encode(h: &ConHeader) -> Vec<u8> {
    let mut bytes = b"LIVE".to_vec();
    bytes.extend_from_slice(&h.exe_info.title_id.to_be_bytes());
    bytes.extend_from_slice(&h.block_count.to_be_bytes());
    bytes.extend_from_slice(&h.part_count.to_be_bytes());
    bytes.extend_from_slice(&h.parts_size.to_be_bytes());
    bytes.extend_from_slice(&h.mht_hash);
    bytes.extend_from_slice(h.game_title.as_deref().unwrap_or("").as_bytes());
    bytes
}

fn options<A: Fn() -> bool>(should_abort: Option<A>) -> ConvertOptions<ProgressLog, A> {
    ConvertOptions {
        trim: TrimMode::Compact,
        game_title: Some("Fixture".to_string()),
        dry_run: false,
        progress: Some(ProgressLog { events: Vec::new() }),
        should_abort,
    }
}

fn events(log: &Option<ProgressLog>) -> Vec<(String, u64, u64)> {
    match log {
        Some(log) => log
            .events
            .iter()
            .map(|e| (e.stage.clone(), e.current, e.total))
            .collect(),
        None => Vec::new(),
    }
}

fn raw(data: Vec<u8>, root_offset: u64) -> ReaderSource<MemoryDevice> {
    ReaderSource::Raw {
        image: MemoryDevice::new(data),
        root_offset,
    }
}

fn rebuilt(data: Vec<u8>) -> ReaderSource<MemoryDevice> {
    ReaderSource::Compact {
        compact: CompactSource {
            image: MemoryDevice::new(data),
        },
    }
}

#[test]
fn a_small_image_becomes_a_package() {
    let data = pattern(10_000);
    let mut image = vec![0xEEu8; 512];
    image.extend_from_slice(&data);
    let mut vol = volume(4 * 1024 * 1024);
    vol.create_directory("/Content").expect("mkdir");
    let mut opts = options(None::<fn() -> bool>);
    opts.trim = TrimMode::Untrimmed;
    let report = convert_iso_to_fatx(
        raw(image, 512),
        title(ContentType::GamesOnDemand),
        &vec![],
        &mut vol,
        "/Content/",
        &mut opts,
        &encode,
    )
    .expect("convert");
    assert_eq!(report.title_id, 0x4D5307E6);
    assert_eq!(report.media_id, 0x1234ABCD);
    assert_eq!((report.part_count, report.block_count, report.data_size), (1, 3, 10_000));

    let base = "/Content/4D5307E6/00007000/1234ABCD";
    let part = vol
        .read_file_by_path(&format!("{}.data/Data0000", base))
        .expect("part");
    assert_eq!(part, expected_part(&data, None));
    let header = vol.read_file_by_path(base).expect("header");
    let mut want = b"LIVE".to_vec();
    want.extend_from_slice(&[0x4D, 0x53, 0x07, 0xE6, 0, 0, 0, 3, 0, 0, 0, 1]);
    want.extend_from_slice(&(part.len() as u64).to_be_bytes());
    want.extend_from_slice(&hash(&part[..4096]));
    want.extend_from_slice(b"Fixture");
    assert_eq!(header, want);

    assert_eq!(
        events(&opts.progress),
        vec![
            ("parts".to_string(), 0, 1),
            ("parts".to_string(), 1, 1),
            ("mht".to_string(), 0, 1),
            ("header".to_string(), 0, 1),
            ("header".to_string(), 1, 1),
        ]
    );
}

#[test]
fn original_xbox_titles_are_filed_under_their_own_number() {
    let mut vol = volume(4 * 1024 * 1024);
    let mut opts = options(None::<fn() -> bool>);
    opts.trim = TrimMode::PreserveLayout;
    opts.progress = None;
    let report = convert_iso_to_fatx(
        raw(pattern(100_000), 0),
        title(ContentType::XboxOriginal),
        &vec![Extent { sector: 10, size: 100 }],
        &mut vol,
        "",
        &mut opts,
        &encode,
    )
    .expect("convert");
    assert_eq!(report.data_size, 20_580);
    let part = vol
        .read_file_by_path("/4D5307E6/00005000/4D5307E6.data/Data0000")
        .expect("part");
    assert_eq!(part, expected_part(&pattern(100_000)[..20_580], None));
    assert!(vol.resolve_path("/4D5307E6/00005000/4D5307E6").is_ok());
}

#[test]
fn two_parts_are_chained() {
    let data = pattern(PART_DATA as usize + 9_000);
    let mut vol = volume(200 * 1024 * 1024);
    let mut opts = options(Some(|| false));
    let report = convert_iso_to_fatx(
        rebuilt(data.clone()),
        title(ContentType::GamesOnDemand),
        &vec![],
        &mut vol,
        "/",
        &mut opts,
        &encode,
    )
    .expect("convert");
    assert_eq!(report.part_count, 2);
    let base = "/4D5307E6/00007000/1234ABCD";
    let second = vol
        .read_file_by_path(&format!("{}.data/Data0001", base))
        .expect("second");
    assert_eq!(second, expected_part(&data[PART_DATA as usize..], None));
    let next = hash(&second[..4096]);
    let first = vol
        .read_file_by_path(&format!("{}.data/Data0000", base))
        .expect("first");
    assert_eq!(first.len() as u64, MAX_PART_BYTES);
    assert!(first == expected_part(&data[..PART_DATA as usize], Some(&next)));
    let header = vol.read_file_by_path(base).expect("header");
    assert_eq!(
        header[16..24],
        (second.len() as u64 + MAX_PART_BYTES).to_be_bytes()
    );
    assert_eq!(header[24..44], hash(&first[..4096])[..]);
    let told = events(&opts.progress);
    assert_eq!(told[0], ("parts".to_string(), 0, 2));
    assert_eq!(told[1], ("parts".to_string(), 1, 2));
    assert_eq!(told[3], ("mht".to_string(), 0, 2));
    assert_eq!(told[4], ("mht".to_string(), 2, 2));
    assert_eq!(told.len(), 7);
}

#[test]
fn dry_runs_write_nothing() {
    let mut vol = volume(4 * 1024 * 1024);
    let mut opts = options(None::<fn() -> bool>);
    opts.dry_run = true;
    let report = convert_iso_to_fatx(
        rebuilt(pattern(5_000)),
        title(ContentType::GamesOnDemand),
        &vec![],
        &mut vol,
        "/",
        &mut opts,
        &encode,
    )
    .expect("dry run");
    assert_eq!(report.part_count, 1);
    assert!(vol.read_root_directory().expect("root").is_empty());
    assert!(events(&opts.progress).is_empty());
}

#[test]
fn conversions_can_be_cancelled() {
    let mut vol = volume(4 * 1024 * 1024);
    let mut opts = options(Some(|| true));
    let r = convert_iso_to_fatx(
        rebuilt(pattern(5_000)),
        title(ContentType::GamesOnDemand),
        &vec![],
        &mut vol,
        "/",
        &mut opts,
        &encode,
    );
    assert!(matches!(r, Err(FatxError::Other(m)) if m == "convert_iso_to_fatx: cancelled"));
    let dir = vol
        .resolve_path("/4D5307E6/00007000/1234ABCD.data")
        .expect("directory");
    assert!(vol.read_directory(dir.first_cluster).expect("list").is_empty());
}

#[test]
fn empty_images_are_refused() {
    let mut vol = volume(4 * 1024 * 1024);
    let mut opts = options(None::<fn() -> bool>);
    let r = convert_iso_to_fatx(
        rebuilt(Vec::new()),
        title(ContentType::GamesOnDemand),
        &vec![],
        &mut vol,
        "/",
        &mut opts,
        &encode,
    );
    assert!(matches!(
        r,
        Err(FatxError::Other(m)) if m == "convert_iso_to_fatx: source has no data to convert"
    ));
    assert!(vol.read_root_directory().expect("root").is_empty());
}

#[test]
fn a_file_in_the_way_is_an_error() {
    let mut vol = volume(4 * 1024 * 1024);
    vol.create_file("/4D5307E6", b"in the way").expect("create");
    let mut opts = options(None::<fn() -> bool>);
    let r = convert_iso_to_fatx(
        rebuilt(pattern(10)),
        title(ContentType::GamesOnDemand),
        &vec![],
        &mut vol,
        "/",
        &mut opts,
        &encode,
    );
    assert!(matches!(r, Err(FatxError::NotADirectory(p)) if p == "/4D5307E6"));
    // Directories that are there are used.
    let now = Stamp { date: 0, time: 0 };
    vol.ensure_fatx_dir("/new", now).expect("made");
    vol.ensure_fatx_dir("/new", now).expect("found");
}

#[test]
fn plain_conversions_fill_the_last_part() {
    let data = pattern(60_000);
    let mut vol = volume(4 * 1024 * 1024);
    let mut opts = fatxlib::iso2god::ConvertOptions {
        trim: fatxlib::iso2god::TrimMode::default(),
        game_title: None,
        dry_run: false,
        progress: Some(ProgressLog { events: Vec::new() }),
    };
    // The files end after 4196 bytes, the image goes on.
    let report = fatxlib::iso2god::convert_iso(
        MemoryDevice::new(data.clone()),
        0,
        title(ContentType::GamesOnDemand),
        &vec![Extent { sector: 2, size: 100 }],
        &mut vol,
        "/",
        &mut opts,
        &encode,
    )
    .expect("convert");
    assert_eq!((report.data_size, report.block_count, report.part_count), (4196, 2, 1));
    let part = vol
        .read_file_by_path("/4D5307E6/00007000/1234ABCD.data/Data0000")
        .expect("part");
    assert_eq!(part, expected_part(&data, None));
    assert_eq!(events(&opts.progress).len(), 5);
    opts.dry_run = true;
    opts.trim = fatxlib::iso2god::TrimMode::Untrimmed;
    let report = fatxlib::iso2god::convert_iso(
        MemoryDevice::new(data),
        0,
        title(ContentType::GamesOnDemand),
        &vec![],
        &mut vol,
        "/",
        &mut opts,
        &encode,
    )
    .expect("dry run");
    assert_eq!(report.data_size, 60_000);
}

/// A place that keeps files in memory.
struct MemorySink {
    files: BTreeMap<String, Vec<u8>>,
}

impl GodSink for MemorySink {
    type State = ();
    type Fixed = ();

    fn package_state(&self) {}

    fn fixed(&self) {}

    fn ready(&self) -> bool {
        true
    }

    fn dependable(&self) -> bool {
        true
    }

    fn can_patch(&self) -> bool {
        true
    }

    fn settled(&self) -> bool {
        true
    }

    fn after_begin(_: (), _: PathsView, _: Stamp) -> Step<()> {
        ((), Ok(()))
    }

    fn after_write(_: (), _: Text, _: Bytes, _: Stamp) -> Step<()> {
        ((), Ok(()))
    }

    fn after_patch(_: (), _: Text, _: Bytes) -> Step<()> {
        ((), Ok(()))
    }

    fn begin(&mut self, _paths: &PackagePaths, _now: Stamp) -> Result<()> {
        Ok(())
    }

    fn write_part(&mut self, path: &str, data: &[u8], _now: Stamp) -> Result<()> {
        self.files.insert(path.to_string(), data.to_vec());
        Ok(())
    }

    fn write_master_hash(&mut self, path: &str, page: &[u8]) -> Result<()> {
        let file = self.files.get_mut(path).expect("file");
        file[..page.len()].copy_from_slice(page);
        Ok(())
    }

    fn write_con_header(&mut self, path: &str, con_bytes: &[u8], _now: Stamp) -> Result<()> {
        self.files.insert(path.to_string(), con_bytes.to_vec());
        Ok(())
    }

    fn flush_stage(&mut self) {}
}

#[test]
fn a_package_is_the_same_at_every_place() {
    let data = pattern(PART_DATA as usize + 12_345);
    let mut place = MemorySink {
        files: BTreeMap::new(),
    };
    let mut opts = options(None::<fn() -> bool>);
    let report = convert_iso(
        rebuilt(data.clone()),
        title(ContentType::GamesOnDemand),
        &vec![],
        &mut place,
        "",
        &mut opts,
        &encode,
    )
    .expect("convert");
    let mut vol = volume(200 * 1024 * 1024);
    vol.create_directory("/Content").expect("mkdir");
    let mut vol_opts = options(None::<fn() -> bool>);
    let vol_report = convert_iso_to_fatx(
        rebuilt(data),
        title(ContentType::GamesOnDemand),
        &vec![],
        &mut vol,
        "/Content",
        &mut vol_opts,
        &encode,
    )
    .expect("convert");
    assert_eq!(format!("{:?}", report), format!("{:?}", vol_report));
    assert_eq!(place.files.len(), 3);
    for (path, bytes) in &place.files {
        let copy = vol
            .read_file_by_path(&format!("/Content{}", path))
            .expect("read");
        assert!(copy == *bytes);
    }
    // Every stage that is told of is one of three.
    for (stage, current, total) in events(&vol_opts.progress) {
        assert!(["parts", "mht", "header"].contains(&stage.as_str()));
        assert!(current <= total);
    }
}

#[test]
fn a_dry_run_foretells_the_report() {
    let mut vol = volume(4 * 1024 * 1024);
    let mut opts = options(None::<fn() -> bool>);
    opts.dry_run = true;
    let mut reports = Vec::new();
    for dry_run in [true, false] {
        opts.dry_run = dry_run;
        let report = convert_iso_to_fatx(
            rebuilt(pattern(30_000)),
            title(ContentType::GamesOnDemand),
            &vec![],
            &mut vol,
            "/",
            &mut opts,
            &encode,
        )
        .expect("convert");
        reports.push(report);
    }
    assert_eq!(format!("{:?}", reports[0]), format!("{:?}", reports[1]));
}

#[test]
fn a_wish_to_stop_is_honoured_at_every_step() {
    let data = pattern(PART_DATA as usize + 5_000);
    // Before which question the caller has had enough, and what is there and told by then.
    let cases: [(u32, &[&str], usize); 3] = [
        (0, &[], 1),
        (1, &["Data0000"], 2),
        (2, &["Data0000", "Data0001"], 4),
    ];
    for (patience, names, told) in cases {
        let mut place = MemorySink {
            files: BTreeMap::new(),
        };
        let asked = std::cell::Cell::new(0u32);
        let mut opts = options(Some(|| {
            asked.set(asked.get() + 1);
            asked.get() > patience
        }));
        let r = convert_iso(
            rebuilt(data.clone()),
            title(ContentType::GamesOnDemand),
            &vec![],
            &mut place,
            "",
            &mut opts,
            &encode,
        );
        assert!(matches!(r, Err(FatxError::Other(m)) if m == "convert_iso: cancelled"));
        assert_eq!(asked.get(), patience + 1);
        let there: Vec<String> = place
            .files
            .keys()
            .map(|p| p.rsplit('/').next().unwrap_or("").to_string())
            .collect();
        assert_eq!(there, names);
        assert_eq!(events(&opts.progress).len(), told);
        // The files have not been chained.
        if let Some(first) = place.files.values().next() {
            assert!(*first == expected_part(&data[..PART_DATA as usize], None));
        }
    }
}
