//! Packing an image: the Data files, the chain of their hashes, and the header.

use vstd::prelude::*;
use crate::clock::local_stamp;
use crate::device::{Device, MAX_DEVICE_SIZE};
use crate::disk::Stamp;
use crate::error::{ErrView, FatxError, Result};
use crate::volume::{fault, outcome, FatxVolume};
use super::hash_list::{hash_of, page, HashList};
use super::laws::law_part_size;
use super::package::{package_paths, part_path, GodSink, PackagePaths, PathsView};
use super::part::{
    fill_part_buf, image_at, part_image, part_master, part_payload_bytes, payload, payload_size,
};
use super::source::{
    law_part_count_is_just_enough, packed_size, prepare_source, report_of, ContentType,
    ConvertReport, Extent, PreparedSource, ReaderSource, TitleExecutionInfo, TitleInfo, TrimMode,
};
use super::{BLOCK_SIZE, MAX_PART_BYTES, PART_DATA};

verus! {

// ---------------------------------------------------------------------------
// Progress
// ---------------------------------------------------------------------------

/// One report of progress: the stage, and how far it has come.
#[derive(Debug)]
pub struct ProgressEvent {
    pub stage: String,
    pub current: u64,
    pub total: u64,
}

/// One report of progress, as a mathematical value.
#[verifier::ext_equal]
pub struct EventView {
    pub stage: Seq<char>,
    pub current: u64,
    pub total: u64,
}

impl View for ProgressEvent {
    type V = EventView;

    open spec fn view(&self) -> EventView {
        EventView { stage: self.stage@, current: self.current, total: self.total }
    }
}

/// A report of progress.
pub open spec fn event(stage: Seq<char>, current: int, total: int) -> EventView {
    EventView { stage, current: current as u64, total: total as u64 }
}

/// Something that is told how far a conversion has come.
pub trait Progress {
    /// What it has been told so far.
    spec fn told(&self) -> Seq<EventView>;

    /// Tells it that `current` of `total` steps of `stage` are done.
    fn tell(&mut self, stage: &str, current: u64, total: u64)
        ensures
            final(self).told() == old(self).told().push(
                (EventView { stage: stage@, current, total }),
            ),
    ;
}

/// A list of all reports.
#[derive(Debug)]
pub struct ProgressLog {
    pub events: Vec<ProgressEvent>,
}

impl Progress for ProgressLog {
    open spec fn told(&self) -> Seq<EventView> {
        self.events@.map_values(|e: ProgressEvent| e@)
    }

    fn tell(&mut self, stage: &str, current: u64, total: u64) {
        let event = ProgressEvent { stage: stage.to_owned(), current, total };
        self.events.push(event);
        assert(self.told() =~= old(self).told().push(event@));
    }
}

/// What the caller may choose.
pub struct ConvertOptions<P: Progress, A: Fn() -> bool> {
    /// How much of the image is packed.
    pub trim: TrimMode,
    /// The title in the header; it stays blank without one.
    pub game_title: Option<String>,
    /// Only look at the image and report what would be written.
    pub dry_run: bool,
    /// What is told of the progress.
    pub progress: Option<P>,
    /// Asked before each Data file, and before each step of the chain of hashes, whether to
    /// stop.
    pub should_abort: Option<A>,
}

impl<P: Progress, A: Fn() -> bool> ConvertOptions<P, A> {
    /// What has been told of the progress.
    pub open spec fn told(&self) -> Seq<EventView> {
        match self.progress {
            Some(p) => p.told(),
            None => seq![],
        }
    }

    /// The caller can be asked whether to stop.
    pub open spec fn askable(&self) -> bool {
        self.should_abort matches Some(a) ==> call_requires(a, ())
    }

    /// The choices, but for what has been told of the progress.
    pub open spec fn same_choices(&self, other: &Self) -> bool {
        &&& self.trim == other.trim
        &&& self.game_title == other.game_title
        &&& self.dry_run == other.dry_run
        &&& self.should_abort == other.should_abort
        &&& self.progress is Some == other.progress is Some
    }

    /// The reports of progress, had the caller asked for them, are these.
    pub open spec fn heard(&self, told: Seq<EventView>) -> bool {
        self.progress is Some ==> self.told() == told
    }

    fn tell(&mut self, stage: &str, current: u64, total: u64, Ghost(told): Ghost<Seq<EventView>>)
        requires
            old(self).heard(told),
        ensures
            final(self).same_choices(old(self)),
            final(self).heard(told.push(event(stage@, current as int, total as int))),
            documented(event(stage@, current as int, total as int)) ==> forall|start: Seq<EventView>|
                #[trigger] tells_on(start, old(self).told()) ==> tells_on(start, final(self).told()),
    {
        let ghost before = self.told();
        match &mut self.progress {
            Some(p) => p.tell(stage, current, total),
            None => {},
        }
        proof {
            let e = event(stage@, current as int, total as int);
            if documented(e) && self.progress is Some {
                assert forall|start: Seq<EventView>| #[trigger] tells_on(start, before) implies tells_on(
                    start,
                    self.told(),
                ) by {
                    lemma_tells_one(start, before, e);
                }
            }
        }
    }

    /// The caller, asked whether to stop, may give this answer.
    pub open spec fn may_answer(&self, stop: bool) -> bool {
        match self.should_abort {
            Some(abort) => call_ensures(abort, (), stop),
            None => !stop,
        }
    }

    fn asked_to_stop(&self) -> (stop: bool)
        requires
            self.askable(),
        ensures
            self.may_answer(stop),
    {
        match &self.should_abort {
            Some(abort) => abort(),
            None => false,
        }
    }
}

// ---------------------------------------------------------------------------
// What a conversion does
// ---------------------------------------------------------------------------

/// What the header of a package says.
#[derive(Debug)]
pub struct ConHeader {
    pub exe_info: TitleExecutionInfo,
    pub content_type: ContentType,
    /// The number of blocks.
    pub block_count: u32,
    /// The number of Data files.
    pub part_count: u32,
    /// The size of the Data files together, all but the last counted as full.
    pub parts_size: u64,
    /// The hash of the first page of the first Data file.
    pub mht_hash: Vec<u8>,
    pub game_title: Option<String>,
}

/// What the header of a package says, as a mathematical value.
#[verifier::ext_equal]
pub struct ConHeaderView {
    pub exe_info: TitleExecutionInfo,
    pub content_type: ContentType,
    pub block_count: u32,
    pub part_count: u32,
    pub parts_size: int,
    pub mht_hash: Seq<u8>,
    pub game_title: Option<Seq<char>>,
}

/// A text that may be missing.
pub open spec fn optional_text(s: Option<String>) -> Option<Seq<char>> {
    match s {
        Some(t) => Some(t@),
        None => None,
    }
}

impl View for ConHeader {
    type V = ConHeaderView;

    open spec fn view(&self) -> ConHeaderView {
        ConHeaderView {
            exe_info: self.exe_info,
            content_type: self.content_type,
            block_count: self.block_count,
            part_count: self.part_count,
            parts_size: self.parts_size as int,
            mht_hash: self.mht_hash@,
            game_title: optional_text(self.game_title),
        }
    }
}

/// What a conversion works on.
#[verifier::ext_equal]
pub struct Job {
    pub report: ConvertReport,
    pub exe_info: TitleExecutionInfo,
    pub content_type: ContentType,
    /// The bytes of the image.
    pub image: Seq<u8>,
    /// The last Data file ends with the bytes that are packed, not with the image.
    pub trimmed: bool,
    pub paths: PathsView,
    pub game_title: Option<Seq<char>>,
    /// What messages start with.
    pub context: Seq<char>,
}

/// What comes from outside while a conversion runs.
#[verifier::ext_equal]
pub struct Outside {
    /// The time at the start, before each Data file, and before the header.
    pub stamps: Seq<Stamp>,
    /// Whether to stop: asked before each Data file, and before each step of the chain.
    pub stops: Seq<bool>,
    /// The header in the form in which it is stored.
    pub header: Seq<u8>,
}

impl Outside {
    /// The answer to question number `i` was to stop.
    pub open spec fn stopped(self, i: int) -> bool {
        0 <= i < self.stops.len() && self.stops[i]
    }
}

/// How far a conversion has come.
#[verifier::ext_equal]
pub struct Run<T> {
    /// The place that takes the files.
    pub place: T,
    /// The reports of progress.
    pub told: Seq<EventView>,
    /// Why it has stopped, if it has.
    pub end: core::result::Result<(), ErrView>,
}

impl Job {
    /// The bytes of the image in Data file number `i`.
    pub open spec fn data(self, i: int) -> Seq<u8> {
        payload(
            self.image,
            i,
            if self.trimmed {
                payload_size(self.report.data_size as int, i)
            } else {
                PART_DATA as int
            },
        )
    }

    /// The hashes on the first page of Data file number `i`, once the files are chained: to
    /// those of its subparts comes that of the first page of the next file.
    pub open spec fn chained(self, i: int) -> Seq<u8>
        decreases self.report.part_count - i,
    {
        if i >= self.report.part_count - 1 {
            part_master(self.data(i))
        } else {
            part_master(self.data(i)) + hash_of(page(self.chained(i + 1)))
        }
    }

    /// The header.
    pub open spec fn header(self) -> ConHeaderView {
        let last = self.report.part_count - 1;
        ConHeaderView {
            exe_info: self.exe_info,
            content_type: self.content_type,
            block_count: (self.report.block_count % 0x1_0000_0000) as u32,
            part_count: (self.report.part_count % 0x1_0000_0000) as u32,
            parts_size: part_image(self.data(last)).len() + last * MAX_PART_BYTES,
            mht_hash: hash_of(page(self.chained(0))),
            game_title: self.game_title,
        }
    }

    pub open spec fn cancelled(self) -> ErrView {
        ErrView::Other(self.context + ": cancelled"@)
    }

    pub open spec fn no_data(self) -> ErrView {
        ErrView::Other(self.context + ": source has no data to convert"@)
    }
}

/// Data file number `i` is written.
pub open spec fn part_step<K: GodSink>(job: Job, out: Outside, run: Run<K::State>, i: int) -> Run<
    K::State,
> {
    if run.end is Err {
        run
    } else if out.stopped(i) {
        Run { end: Err(job.cancelled()), ..run }
    } else {
        let (place, end) = K::after_write(
            run.place,
            part_path(job.paths, i as nat),
            part_image(job.data(i)),
            out.stamps[i + 1],
        );
        Run {
            place,
            told: if end is Ok {
                run.told.push(event("parts"@, i + 1, job.report.part_count as int))
            } else {
                run.told
            },
            end,
        }
    }
}

/// The first `k` Data files are written.
pub open spec fn parts_upto<K: GodSink>(
    job: Job,
    out: Outside,
    run: Run<K::State>,
    k: nat,
) -> Run<K::State>
    decreases k,
{
    if k == 0 {
        run
    } else {
        part_step::<K>(job, out, parts_upto::<K>(job, out, run, (k - 1) as nat), k - 1)
    }
}

/// Step number `k` of the chain: the hash of a Data file's first page is entered in the file
/// before it. The steps lead from the last file to the first.
pub open spec fn chain_step<K: GodSink>(job: Job, out: Outside, run: Run<K::State>, k: int) -> Run<
    K::State,
> {
    let n = job.report.part_count as int;
    let i = n - 1 - k;
    if run.end is Err {
        run
    } else if out.stopped(n + k - 1) {
        Run { end: Err(job.cancelled()), ..run }
    } else {
        let (place, end) = K::after_patch(
            run.place,
            part_path(job.paths, i as nat),
            page(job.chained(i)),
        );
        Run {
            place,
            told: if end is Ok {
                run.told.push(event("mht"@, n - i, n))
            } else {
                run.told
            },
            end,
        }
    }
}

/// The first `k` steps of the chain are done.
pub open spec fn chain_upto<K: GodSink>(
    job: Job,
    out: Outside,
    run: Run<K::State>,
    k: nat,
) -> Run<K::State>
    decreases k,
{
    if k == 0 {
        run
    } else {
        chain_step::<K>(job, out, chain_upto::<K>(job, out, run, (k - 1) as nat), k as int)
    }
}

/// Something is reported, unless the conversion has stopped.
pub open spec fn reported<T>(run: Run<T>, e: EventView) -> Run<T> {
    if run.end is Err {
        run
    } else {
        Run { told: run.told.push(e), ..run }
    }
}

/// The place is ready for the Data files.
pub open spec fn begun<K: GodSink>(job: Job, out: Outside, run: Run<K::State>) -> Run<K::State> {
    let (place, end) = K::after_begin(run.place, job.paths, out.stamps[0]);
    reported(
        Run { place, told: run.told, end },
        event("parts"@, 0, job.report.part_count as int),
    )
}

/// All Data files are written.
pub open spec fn written<K: GodSink>(job: Job, out: Outside, run: Run<K::State>) -> Run<K::State> {
    let n = job.report.part_count;
    reported(
        parts_upto::<K>(job, out, begun::<K>(job, out, run), n as nat),
        event("mht"@, 0, n as int),
    )
}

/// A conversion up to the point where all Data files are written and chained.
pub open spec fn packed<K: GodSink>(job: Job, out: Outside, run: Run<K::State>) -> Run<K::State> {
    chain_upto::<K>(
        job,
        out,
        written::<K>(job, out, run),
        (job.report.part_count - 1) as nat,
    )
}

/// The header is written.
pub open spec fn finished<K: GodSink>(job: Job, out: Outside, run: Run<K::State>) -> Run<K::State> {
    let run = reported(run, event("header"@, 0, 1));
    if run.end is Err {
        run
    } else {
        let (place, end) = K::after_write(
            run.place,
            job.paths.con_header,
            out.header,
            out.stamps[job.report.part_count + 1],
        );
        reported(Run { place, told: run.told, end }, event("header"@, 1, 1))
    }
}

/// A whole conversion.
pub open spec fn conversion<K: GodSink>(job: Job, out: Outside, run: Run<K::State>) -> Run<
    K::State,
> {
    if job.report.part_count == 0 {
        Run { end: Err(job.no_data()), ..run }
    } else {
        finished::<K>(job, out, packed::<K>(job, out, run))
    }
}

/// The caller was asked before each of the Data files that was come to, and the clock was read.
pub open spec fn asked_for_parts<K: GodSink>(job: Job, out: Outside, run: Run<K::State>) -> bool {
    forall|i: int|
        0 <= i < job.report.part_count && (#[trigger] parts_upto::<K>(job, out, run, i as nat)).end
            is Ok ==> i < out.stops.len() && i + 1 < out.stamps.len()
}

/// The caller was asked before each step of the chain that was come to.
pub open spec fn asked_for_chain<K: GodSink>(job: Job, out: Outside, run: Run<K::State>) -> bool {
    forall|k: int|
        1 <= k < job.report.part_count && (#[trigger] chain_upto::<K>(
            job,
            out,
            run,
            (k - 1) as nat,
        )).end is Ok ==> job.report.part_count + k - 1 < out.stops.len()
}

/// All that a conversion needs from outside was asked for at the time: whether to stop, before
/// each Data file and each step of the chain that was come to, and the time, at the start and
/// for each file. Once all Data files are chained, nothing more has been asked for than that.
pub open spec fn attended<K: GodSink>(job: Job, out: Outside, run: Run<K::State>) -> bool {
    let n = job.report.part_count;
    &&& out.stamps.len() > 0
    &&& asked_for_parts::<K>(job, out, begun::<K>(job, out, run))
    &&& asked_for_chain::<K>(job, out, written::<K>(job, out, run))
    &&& packed::<K>(job, out, run).end is Ok ==> out.stops.len() == 2 * n - 1 && out.stamps.len()
        == n + 2
}

/// A report of one of the stages "parts", "mht" and "header", no further than its total.
pub open spec fn documented(e: EventView) -> bool {
    &&& e.stage == "parts"@ || e.stage == "mht"@ || e.stage == "header"@
    &&& e.current <= e.total
}

/// `later` is `earlier` and documented reports behind it.
pub open spec fn tells_on(earlier: Seq<EventView>, later: Seq<EventView>) -> bool {
    &&& earlier.len() <= later.len()
    &&& later.take(earlier.len() as int) == earlier
    &&& forall|i: int| earlier.len() <= i < later.len() ==> documented(#[trigger] later[i])
}

proof fn lemma_tells_one(start: Seq<EventView>, told: Seq<EventView>, e: EventView)
    requires
        tells_on(start, told),
        documented(e),
    ensures
        tells_on(start, told.push(e)),
{
    assert(told.push(e).take(start.len() as int) =~= told.take(start.len() as int));
}

proof fn lemma_tells_nothing(told: Seq<EventView>)
    ensures
        tells_on(told, told),
{
    assert(told.take(told.len() as int) =~= told);
}

proof fn lemma_tells_twice(a: Seq<EventView>, b: Seq<EventView>, c: Seq<EventView>)
    requires
        tells_on(a, b),
        tells_on(b, c),
    ensures
        tells_on(a, c),
{
    assert(c.take(a.len() as int) =~= b.take(a.len() as int));
    assert forall|i: int| a.len() <= i < c.len() implies documented(#[trigger] c[i]) by {
        if i < b.len() {
            assert(c.take(b.len() as int)[i] == b[i]);
        }
    }
}

proof fn lemma_parts_tell<K: GodSink>(
    job: Job,
    out: Outside,
    run: Run<K::State>,
    k: nat,
    start: Seq<EventView>,
)
    requires
        k <= job.report.part_count,
        tells_on(start, run.told),
    ensures
        tells_on(start, parts_upto::<K>(job, out, run, k).told),
    decreases k,
{
    if k > 0 {
        lemma_parts_tell::<K>(job, out, run, (k - 1) as nat, start);
        lemma_tells_one(
            start,
            parts_upto::<K>(job, out, run, (k - 1) as nat).told,
            event("parts"@, k as int, job.report.part_count as int),
        );
    }
}

proof fn lemma_chain_tells<K: GodSink>(
    job: Job,
    out: Outside,
    run: Run<K::State>,
    k: nat,
    start: Seq<EventView>,
)
    requires
        k < job.report.part_count,
        tells_on(start, run.told),
    ensures
        tells_on(start, chain_upto::<K>(job, out, run, k).told),
    decreases k,
{
    if k > 0 {
        lemma_chain_tells::<K>(job, out, run, (k - 1) as nat, start);
        lemma_tells_one(
            start,
            chain_upto::<K>(job, out, run, (k - 1) as nat).told,
            event("mht"@, (k + 1) as int, job.report.part_count as int),
        );
    }
}

/// All that a conversion reports is documented: the stage is "parts", "mht" or "header", and
/// no stage goes beyond its total.
pub proof fn law_progress_is_documented<K: GodSink>(job: Job, out: Outside, run: Run<K::State>)
    ensures
        tells_on(run.told, conversion::<K>(job, out, run).told),
{
    let start = run.told;
    assert(start.take(start.len() as int) =~= start);
    if job.report.part_count > 0 {
        let n = job.report.part_count as int;
        let (place, end) = K::after_begin(run.place, job.paths, out.stamps[0]);
        lemma_tells_one(start, run.told, event("parts"@, 0, n));
        let begun = reported(Run { place, told: run.told, end }, event("parts"@, 0, n));
        lemma_parts_tell::<K>(job, out, begun, n as nat, start);
        let parts = parts_upto::<K>(job, out, begun, n as nat);
        lemma_tells_one(start, parts.told, event("mht"@, 0, n));
        let written = reported(parts, event("mht"@, 0, n));
        lemma_chain_tells::<K>(job, out, written, (n - 1) as nat, start);
        let done = packed::<K>(job, out, run);
        lemma_tells_one(start, done.told, event("header"@, 0, 1));
        let shown = reported(done, event("header"@, 0, 1));
        lemma_tells_one(start, shown.told, event("header"@, 1, 1));
    }
}

/// The moment is one that the clock has shown.
pub open spec fn clock_stamp(now: Stamp) -> bool {
    exists|t: crate::clock::LocalTime|
        crate::files::is_local_time(t) && now == #[trigger] crate::clock::stamp_spec(t)
}

/// `encode` may store the header `h` as `bytes`.
pub open spec fn may_encode<F: Fn(&ConHeader) -> Vec<u8>>(
    encode: F,
    h: ConHeaderView,
    bytes: Seq<u8>,
) -> bool {
    exists|c: ConHeader, v: Vec<u8>|
        c@ == h && v@ == bytes && #[trigger] call_ensures(encode, (&c,), v)
}

/// What came from outside is what the clock, the caller and the encoder can have given.
pub open spec fn possible<P: Progress, A: Fn() -> bool>(
    opts: ConvertOptions<P, A>,
    out: Outside,
) -> bool {
    &&& forall|i: int| 0 <= i < out.stamps.len() ==> clock_stamp(#[trigger] out.stamps[i])
    &&& forall|i: int| 0 <= i < out.stops.len() ==> opts.may_answer(#[trigger] out.stops[i])
}

// ---------------------------------------------------------------------------
// Running a conversion
// ---------------------------------------------------------------------------

impl<S: Device> PreparedSource<S> {
    /// The source is in order and nothing of it has changed.
    pub open spec fn same_source(&self, before: &Self) -> bool {
        &&& self.wf()
        &&& self.report == before.report
        &&& self.exe_info == before.exe_info
        &&& self.content_type == before.content_type
        &&& self.root_offset == before.root_offset
        &&& self.image.state() == before.image.state()
    }

    /// The conversion of the source into files at `paths`.
    pub open spec fn job(
        &self,
        trimmed: bool,
        paths: PathsView,
        game_title: Option<Seq<char>>,
        context: Seq<char>,
    ) -> Job {
        Job {
            report: self.report,
            exe_info: self.exe_info,
            content_type: self.content_type,
            image: self.image_bytes(),
            trimmed,
            paths,
            game_title,
            context,
        }
    }
}

/// A Data file starts before the bytes that are packed end.
proof fn lemma_part_start(report: ConvertReport, i: int)
    requires
        report == report_of(
            report.title_id,
            report.media_id,
            report.content_type,
            report.data_size,
        ),
        0 <= i < report.part_count,
    ensures
        0 <= i * PART_DATA < report.data_size,
{
    law_part_count_is_just_enough(
        report.title_id,
        report.media_id,
        report.content_type,
        report.data_size,
    );
    assert(0 <= i * PART_DATA <= (report.part_count - 1) * PART_DATA) by (nonlinear_arith)
        requires
            0 <= i <= report.part_count - 1,
            PART_DATA > 0,
    ;
}

/// What came from outside earlier is still there.
spec fn extends(later: Outside, earlier: Outside) -> bool {
    &&& earlier.stamps.len() <= later.stamps.len()
    &&& earlier.stops.len() <= later.stops.len()
    &&& forall|i: int| 0 <= i < earlier.stamps.len() ==> later.stamps[i] == earlier.stamps[i]
    &&& forall|i: int| 0 <= i < earlier.stops.len() ==> later.stops[i] == earlier.stops[i]
}

proof fn lemma_parts_agree<K: GodSink>(
    job: Job,
    earlier: Outside,
    later: Outside,
    run: Run<K::State>,
    k: nat,
)
    requires
        extends(later, earlier),
        k < earlier.stamps.len(),
        k <= earlier.stops.len(),
    ensures
        parts_upto::<K>(job, later, run, k) == parts_upto::<K>(job, earlier, run, k),
    decreases k,
{
    if k > 0 {
        lemma_parts_agree::<K>(job, earlier, later, run, (k - 1) as nat);
    }
}

proof fn lemma_parts_stay_stopped<K: GodSink>(
    job: Job,
    out: Outside,
    run: Run<K::State>,
    k: nat,
    n: nat,
)
    requires
        k <= n,
        parts_upto::<K>(job, out, run, k).end is Err,
    ensures
        parts_upto::<K>(job, out, run, n) == parts_upto::<K>(job, out, run, k),
    decreases n - k,
{
    if k < n {
        lemma_parts_stay_stopped::<K>(job, out, run, k, (n - 1) as nat);
    }
}

/// A conversion that has stopped by the time of `k` Data files has asked for all that it came to.
proof fn lemma_parts_asked<K: GodSink>(job: Job, out: Outside, run: Run<K::State>, k: nat)
    requires
        k <= job.report.part_count,
        k <= out.stops.len(),
        k < out.stamps.len(),
        parts_upto::<K>(job, out, run, k).end is Err,
    ensures
        asked_for_parts::<K>(job, out, run),
        parts_upto::<K>(job, out, run, job.report.part_count as nat) == parts_upto::<K>(
            job,
            out,
            run,
            k,
        ),
{
    lemma_parts_stay_stopped::<K>(job, out, run, k, job.report.part_count as nat);
    assert forall|i: int|
        0 <= i < job.report.part_count && (#[trigger] parts_upto::<K>(job, out, run, i as nat)).end
            is Ok implies i < out.stops.len() && i + 1 < out.stamps.len() by {
        if i >= k {
            lemma_parts_stay_stopped::<K>(job, out, run, k, i as nat);
        }
    }
}

proof fn lemma_chain_agree<K: GodSink>(
    job: Job,
    earlier: Outside,
    later: Outside,
    run: Run<K::State>,
    k: nat,
)
    requires
        extends(later, earlier),
        job.report.part_count + k <= earlier.stops.len(),
    ensures
        chain_upto::<K>(job, later, run, k) == chain_upto::<K>(job, earlier, run, k),
    decreases k,
{
    if k > 0 {
        lemma_chain_agree::<K>(job, earlier, later, run, (k - 1) as nat);
    }
}

proof fn lemma_chain_stays_stopped<K: GodSink>(
    job: Job,
    out: Outside,
    run: Run<K::State>,
    k: nat,
    n: nat,
)
    requires
        k <= n,
        chain_upto::<K>(job, out, run, k).end is Err,
    ensures
        chain_upto::<K>(job, out, run, n) == chain_upto::<K>(job, out, run, k),
    decreases n - k,
{
    if k < n {
        lemma_chain_stays_stopped::<K>(job, out, run, k, (n - 1) as nat);
    }
}

/// A conversion that has stopped by step `k` of the chain has asked for all that it came to.
proof fn lemma_chain_asked<K: GodSink>(job: Job, out: Outside, run: Run<K::State>, k: nat)
    requires
        k < job.report.part_count,
        k > 0 ==> job.report.part_count + k <= out.stops.len(),
        chain_upto::<K>(job, out, run, k).end is Err,
    ensures
        asked_for_chain::<K>(job, out, run),
        chain_upto::<K>(job, out, run, (job.report.part_count - 1) as nat) == chain_upto::<K>(
            job,
            out,
            run,
            k,
        ),
{
    let n = job.report.part_count;
    lemma_chain_stays_stopped::<K>(job, out, run, k, (n - 1) as nat);
    assert forall|j: int|
        1 <= j < n && (#[trigger] chain_upto::<K>(job, out, run, (j - 1) as nat)).end
            is Ok implies n + j - 1 < out.stops.len() by {
        if j - 1 >= k {
            lemma_chain_stays_stopped::<K>(job, out, run, k, (j - 1) as nat);
        }
    }
}

/// A wish to stop is honoured before each Data file: the conversion ends with the word that it
/// was cancelled, the files up to there have been written, and nothing else happens.
pub proof fn law_stopped_before_part<K: GodSink>(
    job: Job,
    out: Outside,
    run: Run<K::State>,
    i: nat,
)
    requires
        i < job.report.part_count,
        parts_upto::<K>(job, out, begun::<K>(job, out, run), i).end is Ok,
        out.stopped(i as int),
    ensures
        conversion::<K>(job, out, run) == (Run {
            end: Err(job.cancelled()),
            ..parts_upto::<K>(job, out, begun::<K>(job, out, run), i)
        }),
{
    let first = begun::<K>(job, out, run);
    let n = job.report.part_count;
    lemma_parts_stay_stopped::<K>(job, out, first, i + 1, n as nat);
    lemma_chain_stays_stopped::<K>(job, out, written::<K>(job, out, run), 0, (n - 1) as nat);
}

/// A wish to stop is honoured before each step of the chain: the conversion ends with the word
/// that it was cancelled, the steps up to there have been done, and nothing else happens. No
/// header is written.
pub proof fn law_stopped_in_chain<K: GodSink>(job: Job, out: Outside, run: Run<K::State>, k: nat)
    requires
        0 < k < job.report.part_count,
        chain_upto::<K>(job, out, written::<K>(job, out, run), (k - 1) as nat).end is Ok,
        out.stopped(job.report.part_count + k - 1),
    ensures
        conversion::<K>(job, out, run) == (Run {
            end: Err(job.cancelled()),
            ..chain_upto::<K>(job, out, written::<K>(job, out, run), (k - 1) as nat)
        }),
{
    let then = written::<K>(job, out, run);
    lemma_chain_stays_stopped::<K>(job, out, then, k, (job.report.part_count - 1) as nat);
}

/// A caller who never lets a conversion go on sees it end before the first Data file.
pub proof fn law_never_let_go_on<K: GodSink, P: Progress, A: Fn() -> bool>(
    job: Job,
    out: Outside,
    run: Run<K::State>,
    opts: ConvertOptions<P, A>,
)
    requires
        job.report.part_count > 0,
        possible(opts, out),
        attended::<K>(job, out, run),
        !opts.may_answer(false),
        begun::<K>(job, out, run).end is Ok,
    ensures
        conversion::<K>(job, out, run) == (Run {
            end: Err(job.cancelled()),
            ..begun::<K>(job, out, run)
        }),
{
    let first = begun::<K>(job, out, run);
    assert(parts_upto::<K>(job, out, first, 0int as nat) == first);
    assert(opts.may_answer(out.stops[0]));
    law_stopped_before_part::<K>(job, out, run, 0);
}

fn message(context: &str, words: &str) -> (e: FatxError)
    ensures
        e@ == ErrView::Other(context@ + words@),
{
    let mut s = context.to_owned();
    vstd::string::StringExecFns::append(&mut s, words);
    FatxError::Other(s)
}

/// Writes all Data files. Gives the hashes on their first pages and the size of the last one.
fn write_parts<S: Device, K: GodSink, P: Progress, A: Fn() -> bool>(
    source: &mut PreparedSource<S>,
    sink: &mut K,
    opts: &mut ConvertOptions<P, A>,
    paths: &PackagePaths,
    context: &str,
    trimmed: bool,
    Ghost(job): Ghost<Job>,
    Ghost(out): Ghost<Outside>,
    Ghost(run): Ghost<Run<K::State>>,
) -> (r: (Result<(Vec<HashList>, u64)>, Ghost<Outside>))
    requires
        old(source).wf(),
        old(sink).ready(),
        old(opts).askable(),
        old(opts).heard(run.told),
        job == old(source).job(trimmed, paths@, job.game_title, context@),
        job.report.part_count > 0,
        run.end is Ok,
        run.place == old(sink).package_state(),
        out.stamps.len() == 1,
        out.stops.len() == 0,
        possible(*old(opts), out),
    ensures
        final(source).same_source(old(source)),
        final(sink).ready(),
        final(sink).dependable() == old(sink).dependable(),
        final(sink).fixed() == old(sink).fixed(),
        final(sink).can_patch() == old(sink).can_patch(),
        final(opts).same_choices(old(opts)),
        tells_on(old(opts).told(), final(opts).told()),
        fault(r.0) ==> !old(sink).dependable() || !old(source).image.state().reliable,
        possible(*final(opts), r.1@),
        extends(r.1@, out),
        !fault(r.0) ==> ({
            let end = parts_upto::<K>(job, r.1@, run, job.report.part_count as nat);
            &&& asked_for_parts::<K>(job, r.1@, run)
            &&& end.place == final(sink).package_state()
            &&& final(opts).heard(end.told)
            &&& match r.0 {
                Ok(lists) => {
                    &&& end.end is Ok
                    &&& r.1@.stamps.len() == job.report.part_count + 1
                    &&& r.1@.stops.len() == job.report.part_count
                    &&& lists.0@.len() == job.report.part_count
                    &&& forall|i: int|
                        0 <= i < lists.0@.len() ==> (#[trigger] lists.0@[i])@ == part_master(
                            job.data(i),
                        ) && lists.0@[i].wf() && lists.0@[i].has_room()
                    &&& lists.1 == part_image(job.data(job.report.part_count - 1)).len()
                },
                Err(e) => end.end == Err::<(), ErrView>(e@),
            }
        }),
{
    proof {
        lemma_tells_nothing(opts.told());
    }
    let n: u64 = source.report.part_count;
    let mut lists: Vec<HashList> = Vec::new();
    let mut last_size: u64 = 0;
    let ghost mut seen = out;
    let ghost mut cur = run;
    let mut i: u64 = 0;
    while i < n
        invariant
            source.same_source(old(source)),
            sink.ready(),
            sink.dependable() == old(sink).dependable(),
            sink.fixed() == old(sink).fixed(),
            sink.can_patch() == old(sink).can_patch(),
            opts.same_choices(old(opts)),
            tells_on(old(opts).told(), opts.told()),
            old(opts).askable(),
            possible(*opts, seen),
            extends(seen, out),
            opts.heard(cur.told),
            job == old(source).job(trimmed, paths@, job.game_title, context@),
            n == job.report.part_count,
            i <= n,
            seen.stamps.len() == i + 1,
            seen.stops.len() == i,
            cur == parts_upto::<K>(job, seen, run, i as nat),
            cur.end is Ok,
            cur.place == sink.package_state(),
            lists@.len() == i,
            forall|j: int|
                0 <= j < lists@.len() ==> (#[trigger] lists@[j])@ == part_master(job.data(j))
                    && lists@[j].wf() && lists@[j].has_room(),
            i > 0 ==> last_size == part_image(job.data(i - 1)).len(),
        decreases n - i,
    {
        let ghost before = seen;
        let stop = opts.asked_to_stop();
        let now = local_stamp();
        proof {
            seen = Outside {
                stamps: seen.stamps.push(now),
                stops: seen.stops.push(stop),
                header: seen.header,
            };
            assert(clock_stamp(now));
            assert(possible(*opts, seen));
            lemma_parts_agree::<K>(job, before, seen, run, i as nat);
            assert(parts_upto::<K>(job, seen, run, (i + 1) as nat) == part_step::<K>(
                job,
                seen,
                cur,
                i as int,
            ));
        }
        if stop {
            proof {
                lemma_parts_asked::<K>(job, seen, run, (i + 1) as nat);
            }
            return (Err(message(context, ": cancelled")), Ghost(seen));
        }
        let remaining: u64 = if trimmed {
            part_payload_bytes(source.report.data_size, i)
        } else {
            PART_DATA
        };
        proof {
            lemma_part_start(source.report, i as int);
        }
        let (bytes, master) = match fill_part_buf(
            &mut source.image,
            source.root_offset,
            i,
            remaining,
        ) {
            Ok(part) => part,
            Err(e) => return (Err(e), Ghost(seen)),
        };
        let path = paths.part_file_path(i);
        match sink.write_part(path.as_str(), bytes.as_slice(), now) {
            Ok(_) => {},
            Err(e) => {
                proof {
                    if !fault(Err::<(), FatxError>(e)) {
                        lemma_parts_asked::<K>(job, seen, run, (i + 1) as nat);
                    }
                }
                return (Err(e), Ghost(seen));
            },
        }
        last_size = bytes.len() as u64;
        opts.tell("parts", i + 1, n, Ghost(cur.told));
        lists.push(master);
        proof {
            cur = parts_upto::<K>(job, seen, run, (i + 1) as nat);
        }
        i = i + 1;
    }
    (Ok((lists, last_size)), Ghost(seen))
}

/// Chains the first pages of the Data files. Gives the hash of the first page of the first
/// file.
fn chain_parts<K: GodSink, P: Progress, A: Fn() -> bool>(
    sink: &mut K,
    opts: &mut ConvertOptions<P, A>,
    paths: &PackagePaths,
    context: &str,
    lists: Vec<HashList>,
    Ghost(job): Ghost<Job>,
    Ghost(out): Ghost<Outside>,
    Ghost(run): Ghost<Run<K::State>>,
) -> (r: (Result<Vec<u8>>, Ghost<Outside>))
    requires
        old(sink).ready(),
        old(sink).can_patch() || job.report.part_count <= 1,
        old(opts).askable(),
        old(opts).heard(run.told),
        job.paths == paths@,
        job.context == context@,
        lists@.len() == job.report.part_count,
        lists@.len() > 0,
        forall|i: int|
            0 <= i < lists@.len() ==> (#[trigger] lists@[i])@ == part_master(job.data(i))
                && lists@[i].wf() && lists@[i].has_room(),
        run.end is Ok,
        run.place == old(sink).package_state(),
        out.stamps.len() == job.report.part_count + 1,
        out.stops.len() == job.report.part_count,
        possible(*old(opts), out),
    ensures
        final(sink).ready(),
        final(sink).dependable() == old(sink).dependable(),
        final(sink).fixed() == old(sink).fixed(),
        final(sink).can_patch() == old(sink).can_patch(),
        final(opts).same_choices(old(opts)),
        tells_on(old(opts).told(), final(opts).told()),
        fault(r.0) ==> !old(sink).dependable(),
        possible(*final(opts), r.1@),
        extends(r.1@, out),
        r.1@.stamps.len() == out.stamps.len(),
        !fault(r.0) ==> ({
            let end = chain_upto::<K>(job, r.1@, run, (job.report.part_count - 1) as nat);
            &&& asked_for_chain::<K>(job, r.1@, run)
            &&& end.place == final(sink).package_state()
            &&& final(opts).heard(end.told)
            &&& match r.0 {
                Ok(hash) => {
                    &&& end.end is Ok
                    &&& r.1@.stops.len() == 2 * job.report.part_count - 1
                    &&& hash@ == hash_of(page(job.chained(0)))
                },
                Err(e) => end.end == Err::<(), ErrView>(e@),
            }
        }),
{
    proof {
        lemma_tells_nothing(opts.told());
    }
    let n: usize = lists.len();
    let ghost mut seen = out;
    let ghost mut cur = run;
    let mut hash = lists[n - 1].digest();
    let mut i: usize = n - 1;
    while i > 0
        invariant
            sink.ready(),
            sink.dependable() == old(sink).dependable(),
            sink.fixed() == old(sink).fixed(),
            sink.can_patch() == old(sink).can_patch(),
            old(sink).can_patch() || job.report.part_count <= 1,
            opts.same_choices(old(opts)),
            tells_on(old(opts).told(), opts.told()),
            old(opts).askable(),
            possible(*opts, seen),
            extends(seen, out),
            opts.heard(cur.told),
            job.paths == paths@,
            job.context == context@,
            n == lists@.len() == job.report.part_count,
            forall|j: int|
                0 <= j < lists@.len() ==> (#[trigger] lists@[j])@ == part_master(job.data(j))
                    && lists@[j].wf() && lists@[j].has_room(),
            i < n,
            seen.stamps.len() == out.stamps.len(),
            seen.stops.len() == n + (n - 1 - i),
            cur == chain_upto::<K>(job, seen, run, (n - 1 - i) as nat),
            cur.end is Ok,
            cur.place == sink.package_state(),
            hash@ == hash_of(page(job.chained(i as int))),
        decreases i,
    {
        let ghost before = seen;
        let ghost k = (n - i) as nat;
        let stop = opts.asked_to_stop();
        proof {
            seen = Outside {
                stamps: seen.stamps,
                stops: seen.stops.push(stop),
                header: seen.header,
            };
            assert(possible(*opts, seen));
            lemma_chain_agree::<K>(job, before, seen, run, (k - 1) as nat);
            assert(chain_upto::<K>(job, seen, run, k) == chain_step::<K>(
                job,
                seen,
                cur,
                k as int,
            ));
        }
        if stop {
            proof {
                lemma_chain_asked::<K>(job, seen, run, k);
            }
            return (Err(message(context, ": cancelled")), Ghost(seen));
        }
        i = i - 1;
        let mut list = lists[i].copy();
        list.add_hash(hash.as_slice());
        assert(list@ == job.chained(i as int));
        let path = paths.part_file_path(i as u64);
        let bytes = list.bytes();
        match sink.write_master_hash(path.as_str(), bytes.as_slice()) {
            Ok(_) => {},
            Err(e) => {
                proof {
                    if !fault(Err::<(), FatxError>(e)) {
                        lemma_chain_asked::<K>(job, seen, run, k);
                    }
                }
                return (Err(e), Ghost(seen));
            },
        }
        hash = list.digest();
        opts.tell("mht", (n - i) as u64, n as u64, Ghost(cur.told));
        proof {
            cur = chain_upto::<K>(job, seen, run, k);
        }
    }
    (Ok(hash), Ghost(seen))
}

/// The header of a package.
pub fn build_con_header<S: Device>(
    source: &PreparedSource<S>,
    mht_digest: Vec<u8>,
    game_title: &Option<String>,
    last_part_size: u64,
) -> (h: ConHeader)
    requires
        source.wf(),
        source.report.part_count > 0,
        last_part_size <= MAX_PART_BYTES,
    ensures
        h@ == (ConHeaderView {
            exe_info: source.exe_info,
            content_type: source.content_type,
            block_count: (source.report.block_count % 0x1_0000_0000) as u32,
            part_count: (source.report.part_count % 0x1_0000_0000) as u32,
            parts_size: last_part_size + (source.report.part_count - 1) * MAX_PART_BYTES,
            mht_hash: mht_digest@,
            game_title: optional_text(*game_title),
        }),
{
    let n: u64 = source.report.part_count;
    proof {
        lemma_part_start(source.report, n - 1);
        assert((n - 1) * MAX_PART_BYTES + MAX_PART_BYTES <= u64::MAX) by (nonlinear_arith)
            requires
                n >= 1,
                (n - 1) * PART_DATA <= MAX_DEVICE_SIZE,
                PART_DATA == 0xa1c4000,
                MAX_PART_BYTES == 0xa290000,
                MAX_DEVICE_SIZE == 0x7FFF_FFFF_FFFF_FFFF,
        ;
    }
    let game_title: Option<String> = match game_title {
        Some(t) => Some(t.as_str().to_owned()),
        None => None,
    };
    ConHeader {
        exe_info: source.exe_info,
        content_type: source.content_type,
        block_count: (source.report.block_count % 0x1_0000_0000) as u32,
        part_count: (n % 0x1_0000_0000) as u32,
        parts_size: last_part_size + (n - 1) * MAX_PART_BYTES,
        mht_hash: mht_digest,
        game_title,
    }
}

/// Writes the header.
fn write_header<S: Device, K: GodSink, P: Progress, A: Fn() -> bool, F: Fn(&ConHeader) -> Vec<u8>>(
    source: &PreparedSource<S>,
    sink: &mut K,
    opts: &mut ConvertOptions<P, A>,
    encode: &F,
    paths: &PackagePaths,
    mht_digest: Vec<u8>,
    last_part_size: u64,
    Ghost(job): Ghost<Job>,
    Ghost(out): Ghost<Outside>,
    Ghost(run): Ghost<Run<K::State>>,
) -> (r: (Result<()>, Ghost<Outside>))
    requires
        source.wf(),
        old(sink).ready(),
        old(opts).heard(run.told),
        forall|h: &ConHeader| call_requires(*encode, (h,)),
        job == source.job(
            job.trimmed,
            paths@,
            optional_text(old(opts).game_title),
            job.context,
        ),
        job.report.part_count > 0,
        mht_digest@ == hash_of(page(job.chained(0))),
        last_part_size == part_image(job.data(job.report.part_count - 1)).len(),
        run.end is Ok,
        run.place == old(sink).package_state(),
        out.stamps.len() == job.report.part_count + 1,
        possible(*old(opts), out),
    ensures
        final(sink).ready(),
        final(sink).dependable() == old(sink).dependable(),
        final(sink).fixed() == old(sink).fixed(),
        final(sink).can_patch() == old(sink).can_patch(),
        final(opts).same_choices(old(opts)),
        tells_on(old(opts).told(), final(opts).told()),
        r.0 is Ok && old(sink).dependable() ==> final(sink).settled(),
        fault(r.0) ==> !old(sink).dependable(),
        possible(*final(opts), r.1@),
        extends(r.1@, out),
        r.1@.stops == out.stops,
        r.1@.stamps.len() == out.stamps.len() + 1,
        may_encode(*encode, job.header(), r.1@.header),
        !fault(r.0) ==> ({
            let end = finished::<K>(job, r.1@, run);
            &&& end.place == final(sink).package_state()
            &&& final(opts).heard(end.told)
            &&& end.end == outcome(r.0)
        }),
{
    proof {
        lemma_tells_nothing(opts.told());
    }
    opts.tell("header", 0, 1, Ghost(run.told));
    let ghost told = run.told.push(event("header"@, 0, 1));
    proof {
        law_part_size(job.data(job.report.part_count - 1));
    }
    let header = build_con_header(source, mht_digest, &opts.game_title, last_part_size);
    let bytes = encode(&header);
    let now = local_stamp();
    let ghost seen = Outside {
        stamps: out.stamps.push(now),
        stops: out.stops,
        header: bytes@,
    };
    proof {
        assert(header@ == job.header());
        assert(call_ensures(*encode, (&header,), bytes));
        assert(clock_stamp(now));
    }
    match sink.write_con_header(paths.con_header.as_str(), bytes.as_slice(), now) {
        Ok(_) => {},
        Err(e) => return (Err(e), Ghost(seen)),
    }
    sink.flush_stage();
    opts.tell("header", 1, 1, Ghost(told));
    (Ok(()), Ghost(seen))
}

/// Writes the Data files, chains them, and writes the header.
pub(crate) fn run_stages<S: Device, K: GodSink, P: Progress, A: Fn() -> bool, F: Fn(&ConHeader) -> Vec<u8>>(
    source: &mut PreparedSource<S>,
    sink: &mut K,
    opts: &mut ConvertOptions<P, A>,
    encode: &F,
    dest_dir: &str,
    context: &str,
    trimmed: bool,
) -> (r: (Result<()>, Ghost<Outside>))
    requires
        old(source).wf(),
        old(source).report.part_count > 0,
        old(sink).ready(),
        old(sink).can_patch() || old(source).report.part_count <= 1,
        old(opts).askable(),
        forall|h: &ConHeader| call_requires(*encode, (h,)),
    ensures
        final(source).same_source(old(source)),
        final(sink).ready(),
        final(sink).dependable() == old(sink).dependable(),
        final(sink).fixed() == old(sink).fixed(),
        final(sink).can_patch() == old(sink).can_patch(),
        final(opts).same_choices(old(opts)),
        tells_on(old(opts).told(), final(opts).told()),
        r.0 is Ok && old(sink).dependable() ==> final(sink).settled(),
        fault(r.0) ==> !old(sink).dependable() || !old(source).image.state().reliable,
        possible(*final(opts), r.1@),
        !fault(r.0) ==> ({
            let job = old(source).job(
                trimmed,
                package_paths(
                    dest_dir@,
                    old(source).exe_info,
                    old(source).content_type,
                ),
                optional_text(old(opts).game_title),
                context@,
            );
            let run = Run {
                place: old(sink).package_state(),
                told: old(opts).told(),
                end: Ok::<(), ErrView>(()),
            };
            let end = finished::<K>(job, r.1@, packed::<K>(job, r.1@, run));
            &&& attended::<K>(job, r.1@, run)
            &&& packed::<K>(job, r.1@, run).end is Ok ==> may_encode(
                *encode,
                job.header(),
                r.1@.header,
            )
            &&& end.place == final(sink).package_state()
            &&& final(opts).heard(end.told)
            &&& end.end == outcome(r.0)
        }),
{
    proof {
        lemma_tells_nothing(opts.told());
    }
    let paths = PackagePaths::new(dest_dir, &source.exe_info, source.content_type);
    let ghost job = source.job(
        trimmed,
        paths@,
        optional_text(opts.game_title),
        context@,
    );
    let ghost run = Run {
        place: sink.package_state(),
        told: opts.told(),
        end: Ok::<(), ErrView>(()),
    };
    let n: u64 = source.report.part_count;
    let now = local_stamp();
    let ghost out = Outside { stamps: seq![now], stops: seq![], header: seq![] };
    assert(clock_stamp(now));
    match sink.begin(&paths, now) {
        Ok(_) => {},
        Err(e) => {
            proof {
                if !fault(Err::<(), FatxError>(e)) {
                    let begun = Run {
                        place: sink.package_state(),
                        told: run.told,
                        end: Err::<(), ErrView>(e@),
                    };
                    lemma_parts_asked::<K>(job, out, begun, 0);
                    lemma_chain_asked::<K>(job, out, begun, 0);
                }
            }
            return (Err(e), Ghost(out));
        },
    }
    opts.tell("parts", 0, n, Ghost(run.told));
    let ghost begun = Run {
        place: sink.package_state(),
        told: run.told.push(event("parts"@, 0, n as int)),
        end: Ok::<(), ErrView>(()),
    };
    let ghost told1 = opts.told();
    let (parts, Ghost(out1)) = write_parts(
        source,
        sink,
        opts,
        &paths,
        context,
        trimmed,
        Ghost(job),
        Ghost(out),
        Ghost(begun),
    );
    proof {
        lemma_tells_twice(run.told, told1, opts.told());
    }
    let ghost after_parts = parts_upto::<K>(job, out1, begun, n as nat);
    assert(out1.stamps[0] == now);
    let (lists, last_part_size) = match parts {
        Ok(parts) => parts,
        Err(e) => {
            proof {
                if !fault(Err::<(), FatxError>(e)) {
                    lemma_chain_asked::<K>(job, out1, after_parts, 0);
                }
            }
            return (Err(e), Ghost(out1));
        },
    };
    sink.flush_stage();
    opts.tell("mht", 0, n, Ghost(after_parts.told));
    let ghost written = reported(after_parts, event("mht"@, 0, n as int));
    let ghost told2 = opts.told();
    let (chained, Ghost(out2)) = chain_parts(
        sink,
        opts,
        &paths,
        context,
        lists,
        Ghost(job),
        Ghost(out1),
        Ghost(written),
    );
    proof {
        lemma_tells_twice(run.told, told2, opts.told());
        lemma_parts_agree::<K>(job, out1, out2, begun, n as nat);
        assert(out2.stamps[0] == now);
    }
    let ghost after_chain = chain_upto::<K>(job, out2, written, (n - 1) as nat);
    assert(packed::<K>(job, out2, run) == after_chain);
    let digest = match chained {
        Ok(digest) => digest,
        Err(e) => return (Err(e), Ghost(out2)),
    };
    sink.flush_stage();
    let ghost told3 = opts.told();
    let (done, Ghost(out3)) = write_header(
        source,
        sink,
        opts,
        encode,
        &paths,
        digest,
        last_part_size,
        Ghost(job),
        Ghost(out2),
        Ghost(after_chain),
    );
    proof {
        lemma_tells_twice(run.told, told3, opts.told());
        lemma_parts_agree::<K>(job, out2, out3, begun, n as nat);
        lemma_chain_agree::<K>(job, out2, out3, written, (n - 1) as nat);
        assert(out3.stamps[0] == now);
        assert(packed::<K>(job, out3, run) == after_chain);
    }
    (done, Ghost(out3))
}

/// The conversion `job`, started from `run` and with what came from outside, ends as `end`.
pub open spec fn runs_to<K: GodSink, F: Fn(&ConHeader) -> Vec<u8>>(
    job: Job,
    out: Outside,
    run: Run<K::State>,
    encode: F,
    end: Run<K::State>,
) -> bool {
    &&& end == conversion::<K>(job, out, run)
    &&& job.report.part_count > 0 ==> attended::<K>(job, out, run)
    &&& job.report.part_count > 0 && packed::<K>(job, out, run).end is Ok ==> may_encode(
        encode,
        job.header(),
        out.header,
    )
}

/// The state a conversion starts from or ends in.
pub open spec fn run_state<K: GodSink, P: Progress, A: Fn() -> bool>(
    sink: K,
    opts: ConvertOptions<P, A>,
    end: core::result::Result<(), ErrView>,
) -> Run<K::State> {
    Run { place: sink.package_state(), told: opts.told(), end }
}

/// The end of a conversion that gives its report.
pub open spec fn report_end(r: Result<ConvertReport>) -> core::result::Result<(), ErrView> {
    match r {
        Ok(_) => Ok(()),
        Err(e) => Err(e@),
    }
}

/// Packs a prepared source into the directory `dest_dir` of a place. `encode` gives the
/// stored form of the header; messages start with `context`.
pub fn run_conversion<
    S: Device,
    K: GodSink,
    P: Progress,
    A: Fn() -> bool,
    F: Fn(&ConHeader) -> Vec<u8>,
>(
    source: &mut PreparedSource<S>,
    sink: &mut K,
    opts: &mut ConvertOptions<P, A>,
    encode: &F,
    dest_dir: &str,
    context: &str,
) -> (r: Result<ConvertReport>)
    requires
        old(source).wf(),
        old(sink).ready(),
        old(sink).can_patch() || old(source).report.part_count <= 1,
        old(opts).askable(),
        forall|h: &ConHeader| call_requires(*encode, (h,)),
    ensures
        final(source).same_source(old(source)),
        final(sink).ready(),
        final(sink).dependable() == old(sink).dependable(),
        final(sink).fixed() == old(sink).fixed(),
        final(opts).same_choices(old(opts)),
        tells_on(old(opts).told(), final(opts).told()),
        r is Ok && old(sink).dependable() ==> final(sink).settled(),
        fault(r) ==> !old(sink).dependable() || !old(source).image.state().reliable,
        r matches Ok(report) ==> report == old(source).report,
        old(source).report.part_count == 0 ==> {
            &&& r matches Err(e)
            &&& e@ == ErrView::Other(context@ + ": source has no data to convert"@)
            &&& final(sink).package_state() == old(sink).package_state()
            &&& final(opts).told() == old(opts).told()
        },
        !fault(r) ==> exists|out: Outside, told: Seq<EventView>|
            #![trigger possible(*final(opts), out), final(opts).heard(told)]
            possible(*final(opts), out) && final(opts).heard(told) && runs_to::<K, F>(
                old(source).job(
                    true,
                    package_paths(dest_dir@, old(source).exe_info, old(source).content_type),
                    optional_text(old(opts).game_title),
                    context@,
                ),
                out,
                run_state(*old(sink), *old(opts), Ok(())),
                *encode,
                (Run {
                    place: final(sink).package_state(),
                    told,
                    end: report_end(r),
                }),
            ),
{
    proof {
        lemma_tells_nothing(opts.told());
    }
    let ghost run = run_state(*sink, *opts, Ok(()));
    if source.report.part_count == 0 {
        proof {
            let out = Outside { stamps: seq![], stops: seq![], header: seq![] };
            assert(possible(*opts, out));
            assert(opts.heard(run.told));
        }
        return Err(message(context, ": source has no data to convert"));
    }
    let (done, Ghost(out)) = run_stages(source, sink, opts, encode, dest_dir, context, true);
    proof {
        let job = old(source).job(
            true,
            package_paths(dest_dir@, old(source).exe_info, old(source).content_type),
            optional_text(old(opts).game_title),
            context@,
        );
        assert(possible(*opts, out));
        if !fault(done) {
            assert(opts.heard(conversion::<K>(job, out, run).told));
        }
    }
    match done {
        Ok(_) => Ok(source.report),
        Err(e) => Err(e),
    }
}

/// The report on the image that starts at `root_offset` of a device of `size` bytes.
pub open spec fn image_report(
    size: nat,
    root_offset: u64,
    title: TitleInfo,
    extents: Seq<Extent>,
    trim: TrimMode,
) -> ConvertReport {
    report_of(
        title.execution_info.title_id,
        title.execution_info.media_id,
        title.content_type,
        packed_size(size, root_offset, extents, trim) as u64,
    )
}

/// The conversion of the image that starts at `root_offset` of a device.
pub open spec fn image_job(
    bytes: Seq<u8>,
    root_offset: u64,
    title: TitleInfo,
    extents: Seq<Extent>,
    trim: TrimMode,
    dest_dir: Seq<char>,
    game_title: Option<Seq<char>>,
    context: Seq<char>,
) -> Job {
    Job {
        report: image_report(bytes.len(), root_offset, title, extents, trim),
        exe_info: title.execution_info,
        content_type: title.content_type,
        image: image_at(bytes, root_offset as int),
        trimmed: true,
        paths: package_paths(dest_dir, title.execution_info, title.content_type),
        game_title,
        context,
    }
}

/// The image can be packed: it does not start behind the end of its device, and all that is
/// packed can be addressed.
pub open spec fn packable(size: nat, root_offset: u64, extents: Seq<Extent>, trim: TrimMode) -> bool {
    &&& trim != TrimMode::PreserveLayout ==> root_offset <= size
    &&& root_offset + packed_size(size, root_offset, extents, trim) <= MAX_DEVICE_SIZE
}

/// What a conversion may answer: its report if it succeeds. A dry run succeeds unless the
/// device that holds the image fails, which it cannot where only the extents count.
pub open spec fn may_return(
    job: Job,
    dry_run: bool,
    trim: TrimMode,
    reliable: bool,
    r: Result<ConvertReport>,
) -> bool {
    &&& r matches Ok(report) ==> report == job.report
    &&& dry_run && (reliable || trim == TrimMode::PreserveLayout) ==> r is Ok
}

/// A dry run foretells the report: where the same conversion would succeed, the dry run gives
/// the same, unless it has to ask a device that fails.
pub proof fn law_dry_run_foretells(
    job: Job,
    trim: TrimMode,
    dry_reliable: bool,
    reliable: bool,
    dry: Result<ConvertReport>,
    done: Result<ConvertReport>,
)
    requires
        may_return(job, true, trim, dry_reliable, dry),
        dry_reliable || trim == TrimMode::PreserveLayout,
        may_return(job, false, trim, reliable, done),
        done is Ok,
    ensures
        dry is Ok,
        dry->Ok_0 == done->Ok_0,
{
}

/// Prepares an image and packs it, unless that is only asked for.
fn convert<S: Device, K: GodSink, P: Progress, A: Fn() -> bool, F: Fn(&ConHeader) -> Vec<u8>>(
    reader: ReaderSource<S>,
    title: TitleInfo,
    extents: &Vec<Extent>,
    sink: &mut K,
    dest_dir: &str,
    opts: &mut ConvertOptions<P, A>,
    encode: &F,
    context: &str,
) -> (r: Result<ConvertReport>)
    requires
        reader.image().inv(),
        reader.suits(old(opts).trim),
        packable(reader.image().state().bytes.len(), reader.root_offset(), extents@, old(opts).trim),
        old(sink).ready(),
        old(opts).dry_run || old(sink).can_patch() || image_report(
            reader.image().state().bytes.len(),
            reader.root_offset(),
            title,
            extents@,
            old(opts).trim,
        ).part_count <= 1,
        old(opts).askable(),
        forall|h: &ConHeader| call_requires(*encode, (h,)),
    ensures
        final(sink).ready(),
        final(sink).dependable() == old(sink).dependable(),
        final(sink).fixed() == old(sink).fixed(),
        final(opts).same_choices(old(opts)),
        tells_on(old(opts).told(), final(opts).told()),
        r is Ok && !old(opts).dry_run && old(sink).dependable() ==> final(sink).settled(),
        fault(r) ==> !old(sink).dependable() || !reader.image().state().reliable,
        may_return(
            image_job(
                reader.image().state().bytes,
                reader.root_offset(),
                title,
                extents@,
                old(opts).trim,
                dest_dir@,
                optional_text(old(opts).game_title),
                context@,
            ),
            old(opts).dry_run,
            old(opts).trim,
            reader.image().state().reliable,
            r,
        ),
        old(opts).dry_run ==> {
            &&& fault(r) ==> !reader.image().state().reliable && old(opts).trim
                != TrimMode::PreserveLayout
            &&& !fault(r) ==> r is Ok
            &&& final(sink).package_state() == old(sink).package_state()
            &&& final(opts).told() == old(opts).told()
        },
        !old(opts).dry_run && !fault(r) ==> exists|out: Outside, told: Seq<EventView>|
            #![trigger possible(*final(opts), out), final(opts).heard(told)]
            possible(*final(opts), out) && final(opts).heard(told) && runs_to::<K, F>(
                image_job(
                    reader.image().state().bytes,
                    reader.root_offset(),
                    title,
                    extents@,
                    old(opts).trim,
                    dest_dir@,
                    optional_text(old(opts).game_title),
                    context@,
                ),
                out,
                run_state(*old(sink), *old(opts), Ok(())),
                *encode,
                (Run { place: final(sink).package_state(), told, end: report_end(r) }),
            ),
{
    proof {
        lemma_tells_nothing(opts.told());
    }
    let mut source = match prepare_source(reader, title, extents, opts.trim) {
        Ok(source) => source,
        Err(e) => return Err(e),
    };
    if opts.dry_run {
        return Ok(source.report);
    }
    run_conversion(&mut source, sink, opts, encode, dest_dir, context)
}

/// Packs the image of a title into a package in the directory `dest_dir` of a place:
///
/// - `<dest_dir>/<title id>/<content type>/<media id>.data/Data0000` and so on,
/// - `<dest_dir>/<title id>/<content type>/<media id>`, the header.
///
/// The files of the image lie at `extents` from its start on. `encode`
/// gives the stored form of the header. With `dry_run` nothing is written.
pub fn convert_iso<S: Device, K: GodSink, P: Progress, A: Fn() -> bool, F: Fn(&ConHeader) -> Vec<u8>>(
    reader: ReaderSource<S>,
    title: TitleInfo,
    extents: &Vec<Extent>,
    sink: &mut K,
    dest_dir: &str,
    opts: &mut ConvertOptions<P, A>,
    encode: &F,
) -> (r: Result<ConvertReport>)
    requires
        reader.image().inv(),
        reader.suits(old(opts).trim),
        packable(reader.image().state().bytes.len(), reader.root_offset(), extents@, old(opts).trim),
        old(sink).ready(),
        old(opts).dry_run || old(sink).can_patch() || image_report(
            reader.image().state().bytes.len(),
            reader.root_offset(),
            title,
            extents@,
            old(opts).trim,
        ).part_count <= 1,
        old(opts).askable(),
        forall|h: &ConHeader| call_requires(*encode, (h,)),
    ensures
        final(sink).ready(),
        final(sink).dependable() == old(sink).dependable(),
        final(sink).fixed() == old(sink).fixed(),
        final(opts).same_choices(old(opts)),
        tells_on(old(opts).told(), final(opts).told()),
        r is Ok && !old(opts).dry_run && old(sink).dependable() ==> final(sink).settled(),
        fault(r) ==> !old(sink).dependable() || !reader.image().state().reliable,
        may_return(
            image_job(
                reader.image().state().bytes,
                reader.root_offset(),
                title,
                extents@,
                old(opts).trim,
                dest_dir@,
                optional_text(old(opts).game_title),
                "convert_iso"@,
            ),
            old(opts).dry_run,
            old(opts).trim,
            reader.image().state().reliable,
            r,
        ),
        old(opts).dry_run ==> {
            &&& fault(r) ==> !reader.image().state().reliable && old(opts).trim
                != TrimMode::PreserveLayout
            &&& !fault(r) ==> r is Ok
            &&& final(sink).package_state() == old(sink).package_state()
            &&& final(opts).told() == old(opts).told()
        },
        !old(opts).dry_run && !fault(r) ==> exists|out: Outside, told: Seq<EventView>|
            #![trigger possible(*final(opts), out), final(opts).heard(told)]
            possible(*final(opts), out) && final(opts).heard(told) && runs_to::<K, F>(
                image_job(
                    reader.image().state().bytes,
                    reader.root_offset(),
                    title,
                    extents@,
                    old(opts).trim,
                    dest_dir@,
                    optional_text(old(opts).game_title),
                    "convert_iso"@,
                ),
                out,
                run_state(*old(sink), *old(opts), Ok(())),
                *encode,
                (Run { place: final(sink).package_state(), told, end: report_end(r) }),
            ),
{
    convert(reader, title, extents, sink, dest_dir, opts, encode, "convert_iso")
}

/// Packs the image of a title into a package in the directory `dest_dir` of a volume, as
/// [`convert_iso`] does. The clusters of the volume must have room for a page of hashes if
/// there is more than one Data file.
pub fn convert_iso_to_fatx<
    S: Device,
    D: Device,
    P: Progress,
    A: Fn() -> bool,
    F: Fn(&ConHeader) -> Vec<u8>,
>(
    reader: ReaderSource<S>,
    title: TitleInfo,
    extents: &Vec<Extent>,
    vol: &mut FatxVolume<D>,
    dest_dir: &str,
    opts: &mut ConvertOptions<P, A>,
    encode: &F,
) -> (r: Result<ConvertReport>)
    requires
        reader.image().inv(),
        reader.suits(old(opts).trim),
        packable(reader.image().state().bytes.len(), reader.root_offset(), extents@, old(opts).trim),
        old(vol).wf(),
        old(opts).dry_run || old(vol)@.geo.cluster_size() >= BLOCK_SIZE || image_report(
            reader.image().state().bytes.len(),
            reader.root_offset(),
            title,
            extents@,
            old(opts).trim,
        ).part_count <= 1,
        old(opts).askable(),
        forall|h: &ConHeader| call_requires(*encode, (h,)),
    ensures
        final(vol).keeps(old(vol)),
        final(opts).same_choices(old(opts)),
        tells_on(old(opts).told(), final(opts).told()),
        r is Ok && !old(opts).dry_run && old(vol).reliable() ==> final(vol).stored()
            == final(vol)@.bytes,
        fault(r) ==> !old(vol).reliable() || !reader.image().state().reliable,
        may_return(
            image_job(
                reader.image().state().bytes,
                reader.root_offset(),
                title,
                extents@,
                old(opts).trim,
                dest_dir@,
                optional_text(old(opts).game_title),
                "convert_iso_to_fatx"@,
            ),
            old(opts).dry_run,
            old(opts).trim,
            reader.image().state().reliable,
            r,
        ),
        old(opts).dry_run ==> {
            &&& fault(r) ==> !reader.image().state().reliable && old(opts).trim
                != TrimMode::PreserveLayout
            &&& !fault(r) ==> r is Ok
            &&& final(vol)@ == old(vol)@
            &&& final(opts).told() == old(opts).told()
        },
        !old(opts).dry_run && !fault(r) ==> exists|out: Outside, told: Seq<EventView>|
            #![trigger possible(*final(opts), out), final(opts).heard(told)]
            possible(*final(opts), out) && final(opts).heard(told) && runs_to::<FatxVolume<D>, F>(
                image_job(
                    reader.image().state().bytes,
                    reader.root_offset(),
                    title,
                    extents@,
                    old(opts).trim,
                    dest_dir@,
                    optional_text(old(opts).game_title),
                    "convert_iso_to_fatx"@,
                ),
                out,
                (Run { place: old(vol)@, told: old(opts).told(), end: Ok::<(), ErrView>(()) }),
                *encode,
                (Run { place: final(vol)@, told, end: report_end(r) }),
            ),
{
    convert(reader, title, extents, vol, dest_dir, opts, encode, "convert_iso_to_fatx")
}

} // verus!
