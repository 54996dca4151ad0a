//! Sample content for new images: an Xbox-like tree of directories and files.

use vstd::prelude::*;
use vstd::utf8::encode_utf8;
use crate::chains::{counted, VolumeStats};
use crate::clock::{local_time, stamp_of, stamp_spec, LocalTime};
use crate::device::Device;
use crate::disk::{Disk, Stamp};
use crate::error::{device_fault, error_text, ErrView, FatxError};
use crate::files::is_local_time;
use crate::notation::{law_decimal, law_fixed_decimal, power, reading};
use crate::text::{decimal, fixed_decimal, push_decimal, push_fixed_decimal};
use crate::types::FIRST_CLUSTER;
use crate::volume::FatxVolume;

verus! {

/// A file (with its contents) or a directory (without) to create, and what reports call its
/// creation.
pub struct SampleItem {
    pub action: String,
    pub path: String,
    pub contents: Option<Vec<u8>>,
}

/// A sample item as a mathematical value.
#[verifier::ext_equal]
pub struct SampleView {
    pub action: Seq<char>,
    pub path: Seq<char>,
    pub contents: Option<Seq<u8>>,
}

impl View for SampleItem {
    type V = SampleView;

    open spec fn view(&self) -> SampleView {
        SampleView {
            action: self.action@,
            path: self.path@,
            contents: match self.contents {
                Some(v) => Some(v@),
                None => None,
            },
        }
    }
}

pub open spec fn sample_dir(action: Seq<char>, path: Seq<char>) -> SampleView {
    SampleView { action, path, contents: None }
}

pub open spec fn sample_file(action: Seq<char>, path: Seq<char>, contents: Seq<u8>) -> SampleView {
    SampleView { action, path, contents: Some(contents) }
}

/// The bytes 0 to 255 over and over.
pub open spec fn ramp(len: nat) -> Seq<u8> {
    Seq::new(len, |i: int| (i % 256) as u8)
}

/// The `i`-th save game: "save_000.dat" and so on.
pub open spec fn sample_save(i: nat) -> SampleView {
    let path = "/Content/0000000000000000/FFFE07D1/save_"@ + fixed_decimal(i, 3) + ".dat"@;
    sample_file(
        "create "@ + path,
        path,
        encode_utf8("Save game data #"@ + decimal(i) + "\n"@),
    )
}

/// Directories, small files, a file of 64 KiB and one of 1 MiB.
pub open spec fn sample_basics() -> Seq<SampleView> {
    seq![
        sample_dir("mkdir Content"@, "/Content"@),
        sample_dir("mkdir profile"@, "/Content/0000000000000000"@),
        sample_dir("mkdir Cache"@, "/Cache"@),
        sample_dir("mkdir Apps"@, "/Apps"@),
        sample_dir("mkdir Aurora"@, "/Apps/Aurora"@),
        sample_file("create name.txt"@, "/name.txt"@, encode_utf8("Test Xbox 360\n"@)),
        sample_file("create launch.ini"@, "/launch.ini"@, encode_utf8("[QuickLaunch]\nDefault = Aurora\n"@)),
        sample_file("create config.bin"@, "/Apps/Aurora/config.bin"@, ramp(65536)),
        sample_file("create testfile_1mb.bin"@, "/Content/testfile_1mb.bin"@, ramp(1_048_576)),
        sample_dir("mkdir game title"@, "/Content/0000000000000000/FFFE07D1"@),
    ]
}

/// The basics, then twenty save games.
pub open spec fn sample_tree() -> Seq<SampleView> {
    sample_basics() + Seq::new(20, |i: int| sample_save(i as nat))
}

/// The views of sample items.
pub open spec fn sample_views(items: Seq<SampleItem>) -> Seq<SampleView> {
    items.map_values(|item: SampleItem| item@)
}

/// Creates the items from the `i`-th on, until one fails.
pub open spec fn create_items(d: Disk, items: Seq<SampleView>, i: int, now: Stamp) -> (
    Disk,
    core::result::Result<(), (Seq<char>, ErrView)>,
)
    decreases items.len() - i,
{
    if i < 0 || i >= items.len() {
        (d, Ok(()))
    } else {
        let step = match items[i].contents {
            Some(data) => d.create_file(items[i].path, data, now),
            None => d.create_directory(items[i].path, now),
        };
        match step.1 {
            Ok(_) => create_items(step.0, items, i + 1, now),
            Err(e) => (step.0, Err((items[i].action, e))),
        }
    }
}

fn dir_item(action: &str, path: &str) -> (item: SampleItem)
    ensures
        item@ == sample_dir(action@, path@),
{
    SampleItem { action: action.to_owned(), path: path.to_owned(), contents: None }
}

fn text_item(action: &str, path: &str, text: &str) -> (item: SampleItem)
    ensures
        item@ == sample_file(action@, path@, encode_utf8(text@)),
{
    let mut data: Vec<u8> = Vec::new();
    data.extend_from_slice(text.as_bytes());
    assert(data@ =~= encode_utf8(text@));
    SampleItem { action: action.to_owned(), path: path.to_owned(), contents: Some(data) }
}

fn ramp_item(action: &str, path: &str, len: usize) -> (item: SampleItem)
    ensures
        item@ == sample_file(action@, path@, ramp(len as nat)),
{
    let mut data: Vec<u8> = Vec::new();
    for i in 0..len
        invariant
            data@ == ramp(i as nat),
    {
        data.push((i % 256) as u8);
        assert(data@ =~= ramp((i + 1) as nat));
    }
    SampleItem { action: action.to_owned(), path: path.to_owned(), contents: Some(data) }
}

fn save_item(i: u32) -> (item: SampleItem)
    ensures
        item@ == sample_save(i as nat),
{
    let mut path = String::new();
    vstd::string::StringExecFns::append(&mut path, "/Content/0000000000000000/FFFE07D1/save_");
    push_fixed_decimal(&mut path, i, 3);
    vstd::string::StringExecFns::append(&mut path, ".dat");
    let mut action = String::new();
    vstd::string::StringExecFns::append(&mut action, "create ");
    vstd::string::StringExecFns::append(&mut action, path.as_str());
    let mut text = String::new();
    vstd::string::StringExecFns::append(&mut text, "Save game data #");
    push_decimal(&mut text, i as u64);
    vstd::string::StringExecFns::append(&mut text, "\n");
    proof {
        assert(path@ =~= "/Content/0000000000000000/FFFE07D1/save_"@ + fixed_decimal(i as nat, 3)
            + ".dat"@);
        assert(action@ =~= "create "@ + path@);
        assert(text@ =~= "Save game data #"@ + decimal(i as nat) + "\n"@);
    }
    text_item(action.as_str(), path.as_str(), text.as_str())
}

/// The sample content.
pub fn sample_content() -> (items: Vec<SampleItem>)
    ensures
        sample_views(items@) == sample_tree(),
{
    let mut items: Vec<SampleItem> = vec![
        dir_item("mkdir Content", "/Content"),
        dir_item("mkdir profile", "/Content/0000000000000000"),
        dir_item("mkdir Cache", "/Cache"),
        dir_item("mkdir Apps", "/Apps"),
        dir_item("mkdir Aurora", "/Apps/Aurora"),
        text_item("create name.txt", "/name.txt", "Test Xbox 360\n"),
        text_item("create launch.ini", "/launch.ini", "[QuickLaunch]\nDefault = Aurora\n"),
        ramp_item("create config.bin", "/Apps/Aurora/config.bin", 65536),
        ramp_item("create testfile_1mb.bin", "/Content/testfile_1mb.bin", 1_048_576),
        dir_item("mkdir game title", "/Content/0000000000000000/FFFE07D1"),
    ];
    assert(sample_views(items@) =~= sample_basics());
    let ghost basics = items@;
    for i in 0..20u32
        invariant
            sample_views(items@) == sample_basics() + Seq::new(
                i as nat,
                |k: int| sample_save(k as nat),
            ),
    {
        let ghost before = items@;
        let item = save_item(i);
        items.push(item);
        assert(sample_views(items@) =~= sample_views(before).push(item@));
        assert(sample_views(items@) =~= sample_basics() + Seq::new(
            (i + 1) as nat,
            |k: int| sample_save(k as nat),
        ));
    }
    items
}

/// A step of filling a volume that failed, and why.
#[derive(Debug)]
pub struct PopulateError {
    pub action: String,
    pub error: FatxError,
}

impl PopulateError {
    /// The step and the reason in words.
    pub fn message(&self) -> (s: String)
        ensures
            self.error@ != device_fault() ==> s@ == self.action@ + ": "@ + error_text(self.error@),
    {
        let mut s = String::new();
        vstd::string::StringExecFns::append(&mut s, self.action.as_str());
        vstd::string::StringExecFns::append(&mut s, ": ");
        let reason = self.error.message();
        vstd::string::StringExecFns::append(&mut s, reason.as_str());
        assert(s@ =~= self.action@ + ": "@ + reason@);
        s
    }
}

/// Whether the device failed for reasons of its own.
pub open spec fn populate_fault(r: core::result::Result<VolumeStats, PopulateError>) -> bool {
    r matches Err(e) && e.error@ == device_fault()
}

fn failed(action: &str, error: FatxError) -> (e: PopulateError)
    ensures
        e.action@ == action@,
        e.error == error,
{
    PopulateError { action: action.to_owned(), error }
}

/// What filling a volume of `size` bytes with the sample content gives: the step that failed
/// first, or else the count of the clusters.
pub open spec fn populated(
    d: Disk,
    d2: Disk,
    size: u64,
    now: Stamp,
    r: core::result::Result<VolumeStats, PopulateError>,
) -> bool {
    let made = create_items(d, sample_tree(), 0, now);
    &&& d2 == made.0
    &&& match (made.1, r) {
        (Err(x), Err(e)) => (e.action@, e.error@) == x,
        (Err(_), Ok(_)) => false,
        (Ok(_), _) => match (d2.tally_from(FIRST_CLUSTER as int), r) {
            (Ok(t), Ok(s)) => counted(s, d2, size, t),
            (Err(x), Err(e)) => (e.action@, e.error@) == ("stats"@, x),
            _ => false,
        },
    }
}

/// Fills a volume with the sample content, everything stamped with `now`, and counts its
/// clusters.
pub fn populate_image_at<D: Device>(vol: &mut FatxVolume<D>, now: Stamp) -> (r:
    core::result::Result<VolumeStats, PopulateError>)
    requires
        old(vol).wf(),
    ensures
        final(vol).keeps(old(vol)),
        populate_fault(r) ==> !old(vol).reliable(),
        r is Ok ==> final(vol).stored() == final(vol)@.bytes,
        !populate_fault(r) ==> populated(old(vol)@, final(vol)@, old(vol).volume_size(), now, r),
{
    let items = sample_content();
    let ghost views = sample_tree();
    let n: usize = items.len();
    let mut i: usize = 0;
    while i < n
        invariant
            n == items.len(),
            i <= n,
            views == sample_tree(),
            sample_views(items@) == views,
            old(vol).wf(),
            vol.keeps(old(vol)),
            create_items(vol@, views, i as int, now) == create_items(old(vol)@, views, 0, now),
        decreases n - i,
    {
        assert(views[i as int] == items@[i as int]@);
        let step = match &items[i].contents {
            Some(data) => vol.create_file_at(items[i].path.as_str(), data.as_slice(), now),
            None => vol.create_directory_at(items[i].path.as_str(), now),
        };
        match step {
            Ok(_) => {},
            Err(e) => return Err(failed(items[i].action.as_str(), e)),
        }
        i = i + 1;
    }
    match vol.flush() {
        Ok(_) => {},
        Err(e) => return Err(failed("flush", e)),
    }
    match vol.stats() {
        Ok(s) => Ok(s),
        Err(e) => Err(failed("stats", e)),
    }
}

/// Fills a volume with the sample content, stamped with the local time.
pub fn populate_image<D: Device>(vol: &mut FatxVolume<D>) -> (r: core::result::Result<
    VolumeStats,
    PopulateError,
>)
    requires
        old(vol).wf(),
    ensures
        final(vol).keeps(old(vol)),
        populate_fault(r) ==> !old(vol).reliable(),
        r is Ok ==> final(vol).stored() == final(vol)@.bytes,
        !populate_fault(r) ==> exists|t: LocalTime|
            is_local_time(t) && populated(
                old(vol)@,
                final(vol)@,
                old(vol).volume_size(),
                #[trigger] stamp_spec(t),
                r,
            ),
{
    let t = local_time();
    let now = stamp_of(&t);
    assert(now == stamp_spec(t));
    populate_image_at(vol, now)
}

/// The sample content: thirty items, the last twenty of them save games. Number `i` of these has
/// its number in three digits in its path, and in its contents.
pub proof fn law_sample_saves(i: nat)
    requires
        i < 20,
    ensures
        ({
            let item = sample_tree()[10 + i as int];
            let digits = fixed_decimal(i, 3);
            &&& sample_tree().len() == 30
            &&& digits.len() == 3 && reading(digits, 10) == i
            &&& item.path == "/Content/0000000000000000/FFFE07D1/save_"@ + digits + ".dat"@
            &&& item.action == "create "@ + item.path
            &&& item.contents == Some(encode_utf8("Save game data #"@ + decimal(i) + "\n"@))
            &&& reading(decimal(i), 10) == i
        }),
{
    law_fixed_decimal(i, 3);
    law_decimal(i);
    assert(power(10, 0) == 1);
    assert(power(10, 1) == 10);
    assert(power(10, 2) == 100);
    assert(power(10, 3) == 1000);
    assert(i % 1000 == i);
}

/// Binary sample contents count from 0 to 255 over and over.
pub proof fn law_sample_bytes(len: nat, i: int)
    requires
        0 <= i < len,
    ensures
        ramp(len).len() == len,
        i < 256 ==> ramp(len)[i] == i,
        i >= 256 ==> ramp(len)[i] == ramp(len)[i - 256],
{
}

/// Items are made in order, each on the volume that the one before has left. The first that
/// fails ends it and is named.
pub proof fn law_items_in_order(d: Disk, items: Seq<SampleView>, now: Stamp)
    ensures
        create_items(d, seq![], 0, now) == (d, Ok::<(), (Seq<char>, ErrView)>(())),
        items.len() > 0 ==> {
            let item = items[0];
            let (d2, made) = match item.contents {
                Some(data) => d.create_file(item.path, data, now),
                None => d.create_directory(item.path, now),
            };
            &&& made is Ok ==> create_items(d, items, 0, now) == create_items(d2, items, 1, now)
            &&& made is Err ==> create_items(d, items, 0, now) == (
                d2,
                Err::<(), (Seq<char>, ErrView)>((item.action, made->Err_0)),
            )
        },
{
}

} // verus!
