//! What is packed: the title on a disc image, and how much of the image it takes.

use vstd::prelude::*;
use crate::device::Device;
use crate::error::{FatxError, Result};
use crate::volume::fault;
use super::part::image_at;
use super::{BLOCKS_PER_PART, BLOCK_SIZE, PART_DATA};

verus! {

/// The console a title was made for.
#[derive(Debug, Clone, Copy, PartialEq, Eq, Structural)]
pub enum ContentType {
    GamesOnDemand,
    XboxOriginal,
}

impl ContentType {
    /// The number that stands for the content type in paths and headers.
    pub open spec fn spec_number(self) -> u32 {
        match self {
            ContentType::GamesOnDemand => 0x7000,
            ContentType::XboxOriginal => 0x5000,
        }
    }

    /// The number that stands for the content type in paths and headers.
    pub fn number(&self) -> (n: u32)
        ensures
            n == self.spec_number(),
    {
        match self {
            ContentType::GamesOnDemand => 0x7000,
            ContentType::XboxOriginal => 0x5000,
        }
    }
}

/// What the executable of a title says about it.
#[derive(Debug, Clone, Copy)]
pub struct TitleExecutionInfo {
    pub media_id: u32,
    pub version: u32,
    pub base_version: u32,
    pub title_id: u32,
    pub platform: u8,
    pub executable_type: u8,
    pub disc_number: u8,
    pub disc_count: u8,
}

/// The title on an image.
#[derive(Debug, Clone, Copy)]
pub struct TitleInfo {
    pub execution_info: TitleExecutionInfo,
    pub content_type: ContentType,
}

/// How much of an image is packed.
#[derive(Debug, Clone, Copy, PartialEq, Eq, Structural)]
pub enum TrimMode {
    /// Everything up to the end of the last file; what lies behind it is left out.
    PreserveLayout,
    /// Everything from the start of the data partition to the end of the image.
    Untrimmed,
    /// All of an image that has been rebuilt without gaps.
    Compact,
}

impl Default for TrimMode {
    fn default() -> (t: TrimMode)
        ensures
            t == TrimMode::Compact,
    {
        TrimMode::Compact
    }
}

/// What a conversion makes of an image.
#[derive(Debug, Clone, Copy)]
pub struct ConvertReport {
    pub title_id: u32,
    pub media_id: u32,
    pub content_type: ContentType,
    /// The number of Data files.
    pub part_count: u64,
    /// The number of blocks.
    pub block_count: u64,
    /// Bytes of the image that are packed.
    pub data_size: u64,
}

/// Where the data of a file lies on an image.
#[derive(Debug, Clone, Copy)]
pub struct Extent {
    pub sector: u32,
    pub size: u32,
}

/// Where an extent ends; an empty one ends nowhere.
pub open spec fn extent_end(e: Extent) -> nat {
    if e.size == 0 {
        0
    } else {
        (2048 * e.sector + e.size) as nat
    }
}

/// Where the last of some extents ends.
pub open spec fn extents_end(extents: Seq<Extent>) -> nat
    decreases extents.len(),
{
    if extents.len() == 0 {
        0
    } else {
        let before = extents_end(extents.drop_last());
        let last = extent_end(extents.last());
        if last > before {
            last
        } else {
            before
        }
    }
}

/// `n / d`, rounded up.
pub open spec fn ceil_div(n: int, d: int) -> int {
    (n + d - 1) / d
}

/// What a conversion makes of `data_size` bytes.
pub open spec fn report_of(
    title_id: u32,
    media_id: u32,
    content_type: ContentType,
    data_size: u64,
) -> ConvertReport {
    let block_count = ceil_div(data_size as int, BLOCK_SIZE as int);
    ConvertReport {
        title_id,
        media_id,
        content_type,
        part_count: ceil_div(block_count, BLOCKS_PER_PART as int) as u64,
        block_count: block_count as u64,
        data_size,
    }
}

/// How many bytes of an image are packed; `size` is that of the whole image.
pub open spec fn packed_size(
    size: nat,
    root_offset: u64,
    extents: Seq<Extent>,
    trim: TrimMode,
) -> int {
    match trim {
        TrimMode::PreserveLayout => extents_end(extents) as int,
        TrimMode::Untrimmed | TrimMode::Compact => size - root_offset,
    }
}

/// An image that has been rebuilt from its files alone, without gaps. It fills its device.
pub struct CompactSource<S: Device> {
    pub image: S,
}

/// Where the bytes of an image come from.
pub enum ReaderSource<S: Device> {
    /// The image as it came from the disc; it starts at `root_offset` of the device.
    Raw { image: S, root_offset: u64 },
    /// The rebuilt image.
    Compact { compact: CompactSource<S> },
}

impl<S: Device> ReaderSource<S> {
    /// The device that holds the image.
    pub open spec fn image(&self) -> S {
        match self {
            ReaderSource::Raw { image, root_offset: _ } => *image,
            ReaderSource::Compact { compact } => compact.image,
        }
    }

    /// Where the image starts on the device.
    pub open spec fn root_offset(&self) -> u64 {
        match self {
            ReaderSource::Raw { image: _, root_offset } => *root_offset,
            ReaderSource::Compact { compact: _ } => 0,
        }
    }

    /// The image is rebuilt if and only if that is asked for.
    pub open spec fn suits(&self, trim: TrimMode) -> bool {
        self is Compact <==> trim == TrimMode::Compact
    }

    /// The device that holds the image, and where the image starts on it.
    pub fn open_reader(self) -> (r: (S, u64))
        ensures
            r.0 == self.image(),
            r.1 == self.root_offset(),
    {
        match self {
            ReaderSource::Raw { image, root_offset } => (image, root_offset),
            ReaderSource::Compact { compact } => (compact.image, 0),
        }
    }
}

/// A title that is ready to be packed.
pub struct PreparedSource<S: Device> {
    pub report: ConvertReport,
    pub exe_info: TitleExecutionInfo,
    pub content_type: ContentType,
    /// The device that holds the image.
    pub image: S,
    /// Where the image starts on the device.
    pub root_offset: u64,
}

impl<S: Device> PreparedSource<S> {
    /// The report fits the title, and all of the image can be addressed.
    pub open spec fn wf(&self) -> bool {
        &&& self.image.inv()
        &&& self.report == report_of(
            self.exe_info.title_id,
            self.exe_info.media_id,
            self.content_type,
            self.report.data_size,
        )
        &&& self.root_offset + self.report.data_size <= crate::device::MAX_DEVICE_SIZE
    }

    /// The bytes of the image.
    pub open spec fn image_bytes(&self) -> Seq<u8> {
        image_at(self.image.state().bytes, self.root_offset as int)
    }
}

/// Calls `DiskRegion::offset` of the `xdvdfs` crate with an offset of 0: an empty region has
/// none, any other starts at its sector, and a sector has 2048 bytes.
#[verifier::external_body]
pub(crate) fn region_start(sector: u32, size: u32) -> (start: Option<u64>)
    ensures
        start == (if size == 0 {
            None::<u64>
        } else {
            Some((2048 * sector) as u64)
        }),
{
    xdvdfs::layout::DiskRegion { sector, size }.offset::<std::io::Error>(0).ok()
}

/// Where the last of some extents ends.
pub fn end_of_extents(extents: &Vec<Extent>) -> (end: u64)
    ensures
        end == extents_end(extents@),
{
    let mut end: u64 = 0;
    let mut i: usize = 0;
    assert(extents@.take(0) =~= seq![]);
    while i < extents.len()
        invariant
            i <= extents.len(),
            end == extents_end(extents@.take(i as int)),
        decreases extents.len() - i,
    {
        let e = extents[i];
        assert(extents@.take(i + 1).drop_last() =~= extents@.take(i as int));
        let last: u64 = match region_start(e.sector, e.size) {
            Some(start) => start + e.size as u64,
            None => 0,
        };
        if last > end {
            end = last;
        }
        i = i + 1;
    }
    assert(extents@.take(i as int) =~= extents@);
    end
}

proof fn lemma_ceil_div(n: int, d: int)
    requires
        n >= 0,
        d > 0,
    ensures
        ceil_div(n, d) == n / d + (if n % d == 0 { 0int } else { 1 }),
        0 <= ceil_div(n, d) <= n,
{
    assert((n + d - 1) / d == n / d + (if n % d == 0 { 0int } else { 1 }) && 0 <= (n + d - 1) / d
        <= n) by (nonlinear_arith)
        requires
            n >= 0,
            d > 0,
    ;
}

/// What a conversion makes of `data_size` bytes.
pub fn build_report(
    title_id: u32,
    media_id: u32,
    content_type: ContentType,
    data_size: u64,
) -> (r: ConvertReport)
    ensures
        r == report_of(title_id, media_id, content_type, data_size),
{
    proof {
        lemma_ceil_div(data_size as int, BLOCK_SIZE as int);
        lemma_ceil_div(ceil_div(data_size as int, BLOCK_SIZE as int), BLOCKS_PER_PART as int);
    }
    let block_count: u64 = data_size / BLOCK_SIZE + if data_size % BLOCK_SIZE == 0 { 0 } else { 1 };
    let part_count: u64 = block_count / BLOCKS_PER_PART + if block_count % BLOCKS_PER_PART == 0 {
        0
    } else {
        1
    };
    ConvertReport { title_id, media_id, content_type, part_count, block_count, data_size }
}

/// The number of Data files is just enough for the bytes that are packed.
pub proof fn law_part_count_is_just_enough(
    title_id: u32,
    media_id: u32,
    content_type: ContentType,
    data_size: u64,
)
    ensures
        ({
            let r = report_of(title_id, media_id, content_type, data_size);
            &&& (r.part_count - 1) * PART_DATA < data_size <= r.part_count * PART_DATA
                || r.part_count == 0 && data_size == 0
            &&& (r.block_count - 1) * BLOCK_SIZE < data_size <= r.block_count * BLOCK_SIZE
                || r.block_count == 0 && data_size == 0
        }),
{
    let blocks = ceil_div(data_size as int, BLOCK_SIZE as int);
    lemma_ceil_div(data_size as int, BLOCK_SIZE as int);
    lemma_ceil_div(blocks, BLOCKS_PER_PART as int);
    assert(BLOCKS_PER_PART * BLOCK_SIZE == PART_DATA);
}

/// Prepares an image. Where all of the image is packed, it must not start behind the end of
/// its device; else the device is not asked for anything.
pub fn prepare_source<S: Device>(
    reader: ReaderSource<S>,
    title: TitleInfo,
    extents: &Vec<Extent>,
    trim: TrimMode,
) -> (r: Result<PreparedSource<S>>)
    requires
        reader.image().inv(),
        reader.suits(trim),
        trim != TrimMode::PreserveLayout ==> reader.root_offset()
            <= reader.image().state().bytes.len(),
        reader.root_offset() + packed_size(
            reader.image().state().bytes.len(),
            reader.root_offset(),
            extents@,
            trim,
        ) <= crate::device::MAX_DEVICE_SIZE,
    ensures
        fault(r) ==> !reader.image().state().reliable && trim != TrimMode::PreserveLayout,
        !fault(r) ==> (r matches Ok(source) && {
            &&& source.wf()
            &&& source.report == report_of(
                title.execution_info.title_id,
                title.execution_info.media_id,
                title.content_type,
                packed_size(
                    reader.image().state().bytes.len(),
                    reader.root_offset(),
                    extents@,
                    trim,
                ) as u64,
            )
            &&& source.exe_info == title.execution_info
            &&& source.content_type == title.content_type
            &&& source.image.state() == reader.image().state()
            &&& source.root_offset == reader.root_offset()
        }),
{
    let (image, root_offset) = reader.open_reader();
    let mut image = image;
    let data_size: u64 = match trim {
        TrimMode::PreserveLayout => end_of_extents(extents),
        TrimMode::Untrimmed | TrimMode::Compact => {
            match image.size() {
                Ok(size) => size - root_offset,
                Err(e) => return Err(FatxError::Io(e)),
            }
        },
    };
    let exe_info = title.execution_info;
    let content_type = title.content_type;
    let report = build_report(exe_info.title_id, exe_info.media_id, content_type, data_size);
    Ok(PreparedSource { report, exe_info, content_type, image, root_offset })
}

} // verus!
