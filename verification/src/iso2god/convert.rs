//! Packing an image.

use vstd::prelude::*;
use crate::device::Device;
use crate::error::{ErrView, Result};
use crate::iso::god::convert::{
    clock_stamp, image_report, optional_text, packable, report_end, run_stages, runs_to, tells_on,
    ConHeader, EventView, Job, Outside, Progress, Run,
};
use crate::iso::god::package::{package_paths, GodSink};
use crate::iso::god::part::image_at;
use crate::iso::god::source::{prepare_source, Extent, ReaderSource, TitleInfo};
use crate::volume::fault;

pub use crate::iso::god::source::ConvertReport;

verus! {

/// How much of an image is packed.
#[derive(Debug, Clone, Copy, PartialEq, Eq, Structural)]
pub enum TrimMode {
    /// Everything up to the end of the last file.
    FromEnd,
    /// Everything from the start of the data partition to the end of the image.
    Untrimmed,
}

impl Default for TrimMode {
    fn default() -> (t: TrimMode)
        ensures
            t == TrimMode::FromEnd,
    {
        TrimMode::FromEnd
    }
}

impl TrimMode {
    /// The same choice in the terms of [`crate::iso::god`].
    pub open spec fn spec_general(self) -> crate::iso::god::source::TrimMode {
        match self {
            TrimMode::FromEnd => crate::iso::god::source::TrimMode::PreserveLayout,
            TrimMode::Untrimmed => crate::iso::god::source::TrimMode::Untrimmed,
        }
    }

    /// The same choice in the terms of [`crate::iso::god`].
    pub fn general(self) -> (t: crate::iso::god::source::TrimMode)
        ensures
            t == self.spec_general(),
    {
        match self {
            TrimMode::FromEnd => crate::iso::god::source::TrimMode::PreserveLayout,
            TrimMode::Untrimmed => crate::iso::god::source::TrimMode::Untrimmed,
        }
    }
}

/// What the caller may choose.
pub struct ConvertOptions<P: Progress> {
    /// How much of the image is packed.
    pub trim: TrimMode,
    /// The title in the header; it stays blank without one.
    pub game_title: Option<String>,
    /// Only look at the image and report what would be written.
    pub dry_run: bool,
    /// What is told of the progress.
    pub progress: Option<P>,
}

impl<P: Progress> ConvertOptions<P> {
    /// What has been told of the progress.
    pub open spec fn told(&self) -> Seq<EventView> {
        match self.progress {
            Some(p) => p.told(),
            None => seq![],
        }
    }

    /// The reports of progress, had the caller asked for them, are these.
    pub open spec fn heard(&self, told: Seq<EventView>) -> bool {
        self.progress is Some ==> self.told() == told
    }

    /// The choices, but for what has been told of the progress.
    pub open spec fn same_choices(&self, other: &Self) -> bool {
        &&& self.trim == other.trim
        &&& self.game_title == other.game_title
        &&& self.dry_run == other.dry_run
        &&& self.progress is Some == other.progress is Some
    }
}

/// What came from outside is what the clock can have given, and nobody said to stop.
pub open spec fn undisturbed(out: Outside) -> bool {
    &&& forall|i: int| 0 <= i < out.stamps.len() ==> clock_stamp(#[trigger] out.stamps[i])
    &&& forall|i: int| 0 <= i < out.stops.len() ==> !(#[trigger] out.stops[i])
}

/// The conversion of the image that starts at `root_offset` of a device.
pub open spec fn plain_job(
    bytes: Seq<u8>,
    root_offset: u64,
    title: TitleInfo,
    extents: Seq<Extent>,
    trim: TrimMode,
    dest_dir: Seq<char>,
    game_title: Option<Seq<char>>,
) -> Job {
    Job {
        report: image_report(bytes.len(), root_offset, title, extents, trim.spec_general()),
        exe_info: title.execution_info,
        content_type: title.content_type,
        image: image_at(bytes, root_offset as int),
        trimmed: false,
        paths: package_paths(dest_dir, title.execution_info, title.content_type),
        game_title,
        context: "convert_iso"@,
    }
}

/// Never stop.
fn never() -> (stop: bool)
    ensures
        !stop,
{
    false
}

/// Packs the image of a title into a package in the directory `dest_dir` of a place:
///
/// - `<dest_dir>/<title id>/<content type>/<media id>.data/Data0000` and so on,
/// - `<dest_dir>/<title id>/<content type>/<media id>`, the header.
///
/// The image starts at `root_offset` of its device, and its files lie at `extents`; unless
/// this is a dry run there must be something to pack. `encode` gives the stored form of the
/// header.
pub fn convert_iso<S: Device, K: GodSink, P: Progress, F: Fn(&ConHeader) -> Vec<u8>>(
    image: S,
    root_offset: u64,
    title: TitleInfo,
    extents: &Vec<Extent>,
    sink: &mut K,
    dest_dir: &str,
    opts: &mut ConvertOptions<P>,
    encode: &F,
) -> (r: Result<ConvertReport>)
    requires
        image.inv(),
        packable(
            image.state().bytes.len(),
            root_offset,
            extents@,
            old(opts).trim.spec_general(),
        ),
        old(sink).ready(),
        old(opts).dry_run || ({
            let n = image_report(
                image.state().bytes.len(),
                root_offset,
                title,
                extents@,
                old(opts).trim.spec_general(),
            ).part_count;
            n == 1 || n > 1 && old(sink).can_patch()
        }),
        forall|h: &ConHeader| call_requires(*encode, (h,)),
    ensures
        final(sink).ready(),
        final(sink).dependable() == old(sink).dependable(),
        final(sink).fixed() == old(sink).fixed(),
        final(opts).same_choices(old(opts)),
        tells_on(old(opts).told(), final(opts).told()),
        r is Ok && !old(opts).dry_run && old(sink).dependable() ==> final(sink).settled(),
        fault(r) ==> !old(sink).dependable() || !image.state().reliable,
        r matches Ok(report) ==> report == image_report(
            image.state().bytes.len(),
            root_offset,
            title,
            extents@,
            old(opts).trim.spec_general(),
        ),
        old(opts).dry_run ==> {
            &&& fault(r) ==> !image.state().reliable && old(opts).trim
                != TrimMode::FromEnd
            &&& !fault(r) ==> r is Ok
            &&& final(sink).package_state() == old(sink).package_state()
            &&& final(opts).told() == old(opts).told()
        },
        !old(opts).dry_run && !fault(r) ==> exists|out: Outside, told: Seq<EventView>|
            #![trigger undisturbed(out), final(opts).heard(told)]
            undisturbed(out) && final(opts).heard(told) && runs_to::<K, F>(
                plain_job(
                    image.state().bytes,
                    root_offset,
                    title,
                    extents@,
                    old(opts).trim,
                    dest_dir@,
                    optional_text(old(opts).game_title),
                ),
                out,
                (Run {
                    place: old(sink).package_state(),
                    told: old(opts).told(),
                    end: Ok::<(), ErrView>(()),
                }),
                *encode,
                (Run { place: final(sink).package_state(), told, end: report_end(r) }),
            ),
{
    let ghost before = image.state();
    assert(tells_on(opts.told(), opts.told())) by {
        assert(opts.told().take(opts.told().len() as int) =~= opts.told());
    }
    let mut source = match prepare_source(
        ReaderSource::Raw { image, root_offset },
        title,
        extents,
        opts.trim.general(),
    ) {
        Ok(source) => source,
        Err(e) => return Err(e),
    };
    if opts.dry_run {
        return Ok(source.report);
    }
    let game_title: Option<String> = match &opts.game_title {
        Some(t) => Some(t.as_str().to_owned()),
        None => None,
    };
    let mut general = crate::iso::god::convert::ConvertOptions {
        trim: opts.trim.general(),
        game_title,
        dry_run: false,
        progress: opts.progress.take(),
        should_abort: Some(never),
    };
    let (done, Ghost(out)) = run_stages(
        &mut source,
        sink,
        &mut general,
        encode,
        dest_dir,
        "convert_iso",
        false,
    );
    opts.progress = general.progress.take();
    proof {
        assert(undisturbed(out));
        let job = plain_job(
            before.bytes,
            root_offset,
            title,
            extents@,
            old(opts).trim,
            dest_dir@,
            optional_text(old(opts).game_title),
        );
        let run = Run {
            place: old(sink).package_state(),
            told: old(opts).told(),
            end: Ok::<(), ErrView>(()),
        };
        if !fault(done) {
            assert(opts.heard(crate::iso::god::convert::conversion::<K>(job, out, run).told));
        }
    }
    match done {
        Ok(_) => Ok(source.report),
        Err(e) => Err(e),
    }
}

} // verus!
