//! Laws of measures: what is packed, how much of it there is, where each byte goes, and what is
//! told meanwhile.

use vstd::prelude::*;
use crate::iso2god::convert::plain_job;
use super::convert::{
    begun, chain_upto, conversion, event, image_job, packed, parts_upto, written, Job, Outside, Run,
};
use super::hash_list::{hash_of, page, sha1_hash};
use super::laws::{block, law_hashes_are_in_place, lemma_block_behind, lemma_first_block};
use super::output::package_file;
use super::package::GodSink;
use super::part::{part_body, part_image, part_master, subpart_page};
use super::source::{
    extent_end, extents_end, law_part_count_is_just_enough, packed_size, report_of,
    ContentType, Extent, TitleInfo, TrimMode,
};

verus! {

// ---------------------------------------------------------------------------
// Sizes and counts
// ---------------------------------------------------------------------------

/// A report has the identifiers and the kind that were asked for, as many blocks of 4096 bytes
/// as the data needs, and as many Data files of 0xa1c4000 bytes: one less would not do.
pub proof fn law_counts(
    title_id: u32,
    media_id: u32,
    content_type: ContentType,
    data_size: u64,
)
    ensures
        ({
            let r = report_of(title_id, media_id, content_type, data_size);
            &&& r.title_id == title_id
            &&& r.media_id == media_id
            &&& r.content_type == content_type
            &&& r.data_size == data_size
            &&& r.block_count * 4096 >= data_size
            &&& (r.block_count - 1) * 4096 < data_size
            &&& r.part_count * 0xa1c4000 >= data_size
            &&& (r.part_count - 1) * 0xa1c4000 < data_size
        }),
{
    law_part_count_is_just_enough(title_id, media_id, content_type, data_size);
}

/// Where the last file ends: no file ends behind it, and some file ends there, unless none has
/// any bytes. A file starts at its sector of 2048 bytes.
pub proof fn law_last_extent(extents: Seq<Extent>) -> (k: int)
    ensures
        ({
            let end = extents_end(extents);
            &&& forall|i: int|
                0 <= i < extents.len() && (#[trigger] extents[i]).size > 0 ==> 2048
                    * extents[i].sector + extents[i].size <= end
            &&& end > 0 ==> 0 <= k < extents.len() && extents[k].size > 0 && end == 2048
                * extents[k].sector + extents[k].size
        }),
    decreases extents.len(),
{
    if extents.len() == 0 {
        0
    } else {
        let before = extents.drop_last();
        let k = law_last_extent(before);
        let n = extents.len() - 1;
        assert forall|i: int| 0 <= i < extents.len() && (#[trigger] extents[i]).size > 0 implies 2048
            * extents[i].sector + extents[i].size <= extents_end(extents) by {
            if i < n {
                assert(before[i] == extents[i]);
            }
        }
        if extent_end(extents.last()) > extents_end(before) {
            n
        } else {
            k
        }
    }
}

/// How much is packed: with the layout kept, all up to the end of the last file; else all from
/// the start of the image to the end of the device.
pub proof fn law_packed_size(size: nat, root_offset: u64, extents: Seq<Extent>)
    ensures
        packed_size(size, root_offset, extents, TrimMode::PreserveLayout) == extents_end(extents),
        packed_size(size, root_offset, extents, TrimMode::Untrimmed) + root_offset == size,
        packed_size(size, root_offset, extents, TrimMode::Compact) + root_offset == size,
{
}

/// What a conversion works on is the image that starts at the offset, byte for byte, and the
/// title that was read from it.
pub proof fn law_job_of_image(
    bytes: Seq<u8>,
    root_offset: u64,
    title: TitleInfo,
    extents: Seq<Extent>,
    trim: TrimMode,
    dest_dir: Seq<char>,
    game_title: Option<Seq<char>>,
    context: Seq<char>,
)
    requires
        root_offset <= bytes.len(),
        0 <= packed_size(bytes.len(), root_offset, extents, trim) <= u64::MAX,
    ensures
        ({
            let job = image_job(
                bytes,
                root_offset,
                title,
                extents,
                trim,
                dest_dir,
                game_title,
                context,
            );
            &&& root_offset + job.image.len() == bytes.len()
            &&& forall|i: int|
                0 <= i < job.image.len() ==> #[trigger] job.image[i] == bytes[root_offset + i]
            &&& job.exe_info == title.execution_info
            &&& job.content_type == title.content_type
            &&& job.report.title_id == title.execution_info.title_id
            &&& job.report.media_id == title.execution_info.media_id
            &&& job.report.content_type == title.content_type
            &&& trim == TrimMode::PreserveLayout ==> job.report.data_size == extents_end(extents)
            &&& trim != TrimMode::PreserveLayout ==> job.report.data_size == job.image.len()
            &&& job.game_title == game_title
            &&& job.context == context
            &&& job.trimmed
            &&& job.paths == super::package::package_paths(
                dest_dir,
                title.execution_info,
                title.content_type,
            )
        }),
{
}

/// The same for a conversion that does not rebuild images: it keeps the layout or leaves nothing
/// out, and fills up the last Data file with what follows on the device.
pub proof fn law_plain_job_of_image(
    bytes: Seq<u8>,
    root_offset: u64,
    title: TitleInfo,
    extents: Seq<Extent>,
    dest_dir: Seq<char>,
    game_title: Option<Seq<char>>,
    trim: crate::iso2god::convert::TrimMode,
)
    requires
        root_offset <= bytes.len() <= u64::MAX,
        extents_end(extents) <= u64::MAX,
    ensures
        ({
            let job = plain_job(
                bytes,
                root_offset,
                title,
                extents,
                trim,
                dest_dir,
                game_title,
            );
            &&& root_offset + job.image.len() == bytes.len()
            &&& forall|i: int|
                0 <= i < job.image.len() ==> #[trigger] job.image[i] == bytes[root_offset + i]
            &&& job.exe_info == title.execution_info
            &&& job.content_type == title.content_type
            &&& job.report.title_id == title.execution_info.title_id
            &&& job.report.media_id == title.execution_info.media_id
            &&& job.report.content_type == title.content_type
            &&& trim == crate::iso2god::convert::TrimMode::FromEnd ==> job.report.data_size
                == extents_end(extents)
            &&& trim == crate::iso2god::convert::TrimMode::Untrimmed ==> job.report.data_size
                == job.image.len()
            &&& job.game_title == game_title
            &&& !job.trimmed
            &&& job.paths == super::package::package_paths(
                dest_dir,
                title.execution_info,
                title.content_type,
            )
        }),
{
}

// ---------------------------------------------------------------------------
// Data files
// ---------------------------------------------------------------------------

/// Data file number `i` holds the bytes of the image from `i` times 0xa1c4000 on, as many as
/// fit, as far as the image goes. If the conversion trims, it holds none behind those packed.
pub proof fn law_data_of_part(job: Job, i: int, j: int)
    requires
        0 <= i,
    ensures
        ({
            let data = job.data(i);
            let start = i * 0xa1c4000;
            let end = if job.trimmed && job.report.data_size < job.image.len() {
                job.report.data_size as int
            } else {
                job.image.len() as int
            };
            &&& 0 <= j < data.len() ==> data[j] == job.image[start + j]
            &&& data.len() <= 0xa1c4000
            &&& start >= end ==> data.len() == 0
            &&& start < end ==> start + data.len() <= end
            &&& start < end && data.len() < 0xa1c4000 ==> start + data.len() == end
        }),
{
    assert(i * 0xa1c4000 >= 0) by (nonlinear_arith)
        requires
            i >= 0,
    ;
}

/// A page of hashes has 4096 bytes: the hashes, and zeros behind them.
pub proof fn law_page_of_hashes(hashes: Seq<u8>, i: int)
    ensures
        page(hashes).len() == 4096,
        0 <= i < 4096 && i < hashes.len() ==> page(hashes)[i] == hashes[i],
        hashes.len() <= i < 4096 ==> page(hashes)[i] == 0,
{
}

/// Where a byte of the image stands in a Data file: behind the first page, and behind the pages
/// of its subpart and of those before, of 0xcc000 bytes each.
pub proof fn law_place_in_part(data: Seq<u8>, j: int)
    requires
        0 <= j < data.len(),
    ensures
        ({
            let at = 4096 + (j / 0xcc000 + 1) * 4096 + j;
            &&& at < part_image(data).len()
            &&& part_image(data)[at] == data[j]
        }),
{
    lemma_place_in_body(data, j);
    let head = page(part_master(data));
    assert(head.len() == 4096);
    let at = 4096 + (j / 0xcc000 + 1) * 4096 + j;
    assert(part_image(data)[at] == part_body(data)[at - 4096]);
}

proof fn lemma_place_in_body(data: Seq<u8>, j: int)
    requires
        0 <= j < data.len(),
    ensures
        ({
            let at = (j / 0xcc000 + 1) * 4096 + j;
            &&& at < part_body(data).len()
            &&& part_body(data)[at] == data[j]
        }),
    decreases data.len(),
{
    let n: int = if data.len() < 0xcc000 { data.len() as int } else { 0xcc000 };
    let first = subpart_page(data.take(n)) + data.take(n);
    let rest = data.skip(n);
    assert(part_body(data) == first + part_body(rest));
    assert(subpart_page(data.take(n)).len() == 4096);
    if j < n {
        assert(j / 0xcc000 == 0);
        assert(first[4096 + j] == data.take(n)[j]);
    } else {
        lemma_place_in_body(rest, j - n);
        assert(n == 0xcc000);
        assert((j - 0xcc000) / 0xcc000 == j / 0xcc000 - 1);
        let at = (j / 0xcc000 + 1) * 4096 + j;
        assert(at - first.len() == ((j - n) / 0xcc000 + 1) * 4096 + (j - n));
        assert(part_body(data)[at] == part_body(rest)[at - first.len()]);
    }
}

/// A hash is the 20 bytes of the SHA-1 hash of just that message.
pub proof fn law_hash(message: Seq<u8>, i: int)
    requires
        0 <= i < 20,
    ensures
        hash_of(message).len() == 20,
        hash_of(message)[i] == sha1_hash(message)[i],
{
}

/// Where the hash of a block stands in a Data file: at the place of the block on the page in
/// front of its subpart. Subpart number `p` and its page take 0xcd000 bytes, block number `b` of
/// it has 4096 or, if it is the last, what is left, and the hash is of these bytes.
pub proof fn law_place_of_hash(data: Seq<u8>, p: int, b: int)
    requires
        data.len() <= 0xa1c4000,
        0 <= p,
        0 <= b < 204,
        p * 0xcc000 + b * 4096 < data.len(),
    ensures
        ({
            let start = p * 0xcc000 + b * 4096;
            let end = if start + 4096 < data.len() { start + 4096 } else { data.len() as int };
            let at = 4096 + p * 0xcd000 + 20 * b;
            &&& at + 20 <= part_image(data).len()
            &&& part_image(data).subrange(at, at + 20) == hash_of(data.subrange(start, end))
            &&& part_image(data).subrange(20 * p, 20 * p + 20) == hash_of(
                part_image(data).subrange(4096 + p * 0xcd000, 8192 + p * 0xcd000),
            )
        }),
{
    let subpart = block(data, p, 0xcc000);
    assert(p * 0xcc000 >= 0 && (p + 1) * 0xcc000 == p * 0xcc000 + 0xcc000) by (nonlinear_arith)
        requires
            p >= 0,
    ;
    assert((b + 1) * 4096 == b * 4096 + 4096);
    assert(b * 4096 < subpart.len());
    law_hashes_are_in_place(data, p, b);
    lemma_page_in_body(data, p);
    let start = p * 0xcc000 + b * 4096;
    let end = if start + 4096 < data.len() { start + 4096 } else { data.len() as int };
    assert(block(subpart, b, 4096) =~= data.subrange(start, end));
    let file = part_image(data);
    let body = part_body(data);
    let head = page(part_master(data));
    assert(head.len() == 4096);
    let at = p * 0xcd000;
    assert(at >= 0) by (nonlinear_arith)
        requires
            p >= 0,
            at == p * 0xcd000,
    ;
    assert(file.subrange(4096 + at, 8192 + at) =~= body.subrange(at, at + 4096));
    assert(file.subrange(4096 + at + 20 * b, 4096 + at + 20 * b + 20) =~= subpart_page(
        subpart,
    ).subrange(20 * b, 20 * b + 20)) by {
        assert forall|i: int| 0 <= i < 20 implies file[4096 + at + 20 * b + i]
            == #[trigger] subpart_page(subpart).subrange(20 * b, 20 * b + 20)[i] by {
            assert(body.subrange(at, at + 4096)[20 * b + i] == body[at + 20 * b + i]);
        }
    }
    assert(p < 203) by (nonlinear_arith)
        requires
            p * 0xcc000 < 0xa1c4000,
    ;
    assert(file.subrange(20 * p, 20 * p + 20) =~= head.subrange(20 * p, 20 * p + 20));
}

proof fn lemma_page_in_body(data: Seq<u8>, p: int)
    requires
        0 <= p,
        p * 0xcc000 < data.len(),
    ensures
        ({
            let at = p * 0xcd000;
            &&& at + 4096 <= part_body(data).len()
            &&& part_body(data).subrange(at, at + 4096) == subpart_page(block(data, p, 0xcc000))
        }),
    decreases p,
{
    let n: int = if data.len() < 0xcc000 { data.len() as int } else { 0xcc000 };
    let rest = data.skip(n);
    let first = subpart_page(data.take(n)) + data.take(n);
    assert(part_body(data) == first + part_body(rest));
    assert(subpart_page(data.take(n)).len() == 4096);
    if p == 0 {
        lemma_first_block(data, 0xcc000);
        assert(part_body(data).subrange(0, 4096) =~= subpart_page(data.take(n)));
    } else {
        lemma_block_behind(data, p, 0xcc000);
        assert(n == 0xcc000);
        lemma_page_in_body(rest, p - 1);
        let at = p * 0xcd000;
        let before = (p - 1) * 0xcd000;
        assert(at == before + 0xcd000) by (nonlinear_arith)
            requires
                at == p * 0xcd000,
                before == (p - 1) * 0xcd000,
        ;
        assert(before >= 0) by (nonlinear_arith)
            requires
                p >= 1,
                before == (p - 1) * 0xcd000,
        ;
        assert(part_body(data).subrange(at, at + 4096) =~= part_body(rest).subrange(
            before,
            before + 4096,
        ));
    }
}

/// A file of a package: its first page has the hashes of the pages in front of its subparts and,
/// unless it is the last, that of the first page of the next file. What follows is the same as
/// in the Data file that was written first.
pub proof fn law_file_of_package(job: Job, i: int, j: int)
    requires
        0 <= i < job.report.part_count,
    ensures
        ({
            let file = package_file(job, i);
            let plain = part_image(job.data(i));
            let own = part_master(job.data(i));
            &&& file.len() == plain.len()
            &&& 4096 <= j < file.len() ==> file[j] == plain[j]
            &&& 0 <= j < own.len() && j < 4096 ==> file[j] == own[j]
            &&& i + 1 == job.report.part_count && own.len() <= j < 4096 ==> file[j] == 0
            &&& i + 1 < job.report.part_count && own.len() <= j < own.len() + 20 && j < 4096
                ==> file[j] == hash_of(package_file(job, i + 1).take(4096))[j - own.len()]
            &&& i + 1 < job.report.part_count && own.len() + 20 <= j < 4096 ==> file[j] == 0
        }),
{
    lemma_first_page(job, i);
    if i + 1 < job.report.part_count {
        lemma_first_page(job, i + 1);
        assert(job.chained(i) == part_master(job.data(i)) + hash_of(page(job.chained(i + 1))));
        assert(hash_of(page(job.chained(i + 1))).len() == 20);
    }
}

proof fn lemma_first_page(job: Job, i: int)
    ensures
        package_file(job, i).take(4096) == page(job.chained(i)),
        package_file(job, i) == page(job.chained(i)) + part_image(job.data(i)).skip(4096),
        package_file(job, i).len() == part_image(job.data(i)).len(),
{
    let plain = part_image(job.data(i));
    assert(page(part_master(job.data(i))).len() == 4096);
    assert(plain.len() >= 4096);
    assert(page(job.chained(i)).len() == 4096);
    assert(package_file(job, i) =~= page(job.chained(i)) + plain.skip(4096));
    assert(package_file(job, i).take(4096) =~= page(job.chained(i)));
}

/// What the header says: the title as it is, the counts of the report, the bytes of all Data
/// files, full ones but the last, and the hash of the first page of the first file.
pub proof fn law_header(job: Job)
    requires
        1 <= job.report.part_count <= u32::MAX,
        job.report.block_count <= u32::MAX,
    ensures
        ({
            let h = job.header();
            let last = job.report.part_count - 1;
            &&& h.exe_info == job.exe_info
            &&& h.content_type == job.content_type
            &&& h.block_count == job.report.block_count
            &&& h.part_count == job.report.part_count
            &&& h.parts_size == last * 0xa290000 + package_file(job, last).len()
            &&& h.mht_hash == hash_of(package_file(job, 0).take(4096))
            &&& h.game_title == job.game_title
        }),
{
    lemma_first_page(job, 0);
    lemma_first_page(job, job.report.part_count - 1);
}

// ---------------------------------------------------------------------------
// Success and progress
// ---------------------------------------------------------------------------

/// A place that takes all that is written.
pub open spec fn takes_all<K: GodSink>() -> bool {
    &&& forall|s: K::State, p: super::package::PathsView, now: crate::disk::Stamp|
        (#[trigger] K::after_begin(s, p, now)).1 is Ok
    &&& forall|s: K::State, path: Seq<char>, data: Seq<u8>, now: crate::disk::Stamp|
        (#[trigger] K::after_write(s, path, data, now)).1 is Ok
    &&& forall|s: K::State, path: Seq<char>, data: Seq<u8>|
        (#[trigger] K::after_patch(s, path, data)).1 is Ok
}

/// A conversion succeeds if there is something to pack, the place takes all that is written and
/// the caller never wants to stop.
pub proof fn law_conversion_succeeds<K: GodSink>(job: Job, out: Outside, run: Run<K::State>)
    requires
        job.report.part_count > 0,
        takes_all::<K>(),
        run.end is Ok,
        forall|i: int| 0 <= i < out.stops.len() ==> !#[trigger] out.stops[i],
    ensures
        conversion::<K>(job, out, run).end is Ok,
{
    let n = job.report.part_count as nat;
    lemma_parts_succeed::<K>(job, out, begun::<K>(job, out, run), n);
    lemma_chain_succeeds::<K>(job, out, written::<K>(job, out, run), (n - 1) as nat);
}

proof fn lemma_parts_succeed<K: GodSink>(job: Job, out: Outside, run: Run<K::State>, k: nat)
    requires
        takes_all::<K>(),
        run.end is Ok,
        forall|i: int| 0 <= i < out.stops.len() ==> !#[trigger] out.stops[i],
    ensures
        parts_upto::<K>(job, out, run, k).end is Ok,
    decreases k,
{
    if k > 0 {
        lemma_parts_succeed::<K>(job, out, run, (k - 1) as nat);
    }
}

proof fn lemma_chain_succeeds<K: GodSink>(job: Job, out: Outside, run: Run<K::State>, k: nat)
    requires
        takes_all::<K>(),
        run.end is Ok,
        forall|i: int| 0 <= i < out.stops.len() ==> !#[trigger] out.stops[i],
    ensures
        chain_upto::<K>(job, out, run, k).end is Ok,
    decreases k,
{
    if k > 0 {
        lemma_chain_succeeds::<K>(job, out, run, (k - 1) as nat);
    }
}

/// There is nothing to pack in an image without data.
pub proof fn law_nothing_to_pack<K: GodSink>(job: Job, out: Outside, run: Run<K::State>)
    requires
        job.report.part_count == 0,
    ensures
        conversion::<K>(job, out, run).end is Err,
        conversion::<K>(job, out, run).place == run.place,
        conversion::<K>(job, out, run).told == run.told,
{
}

/// What a conversion that succeeds has told: nothing of the Data files is done, then one more is
/// at a time; nothing is chained, then all from the second to the last; the header is to be
/// written, and is written.
pub proof fn law_told_of_success<K: GodSink>(job: Job, out: Outside, run: Run<K::State>, j: int)
    requires
        conversion::<K>(job, out, run).end is Ok,
        run.end is Ok,
    ensures
        ({
            let n = job.report.part_count as int;
            let before = run.told.len() as int;
            let told = conversion::<K>(job, out, run).told;
            &&& told.len() == before + 2 * n + 3
            &&& 0 <= j < before ==> told[j] == run.told[j]
            &&& 0 <= j <= n ==> told[before + j] == event("parts"@, j, n)
            &&& told[before + n + 1] == event("mht"@, 0, n)
            &&& 2 <= j <= n ==> told[before + n + j] == event("mht"@, j, n)
            &&& told[before + 2 * n + 1] == event("header"@, 0, 1)
            &&& told[before + 2 * n + 2] == event("header"@, 1, 1)
        }),
{
    let n = job.report.part_count as nat;
    let first = begun::<K>(job, out, run);
    let then = written::<K>(job, out, run);
    let chain = packed::<K>(job, out, run);
    assert(chain.end is Ok);
    lemma_told_of_chain::<K>(job, out, then, (n - 1) as nat, j);
    assert(then.end is Ok);
    lemma_told_of_parts::<K>(job, out, first, n, j);
    assert(first.end is Ok);
    let done = parts_upto::<K>(job, out, first, n);
    let before = run.told.len() as int;
    assert(then.told == done.told.push(event("mht"@, 0, n as int)));
    assert(first.told == run.told.push(event("parts"@, 0, n as int)));
    assert forall|x: int| 0 <= x < then.told.len() implies #[trigger] chain.told[x]
        == then.told[x] by {
        assert(chain.told.take(then.told.len() as int)[x] == chain.told[x]);
    }
    assert forall|x: int| 0 <= x < first.told.len() implies #[trigger] done.told[x]
        == first.told[x] by {
        assert(done.told.take(first.told.len() as int)[x] == done.told[x]);
    }
    if 0 <= j <= n {
        assert(chain.told[before + j] == then.told[before + j]);
        assert(then.told[before + j] == done.told[before + j]);
    }
    let told = conversion::<K>(job, out, run).told;
    assert(told == chain.told.push(event("header"@, 0, 1)).push(event("header"@, 1, 1)));
    assert(chain.told[before + n + 1] == then.told[before + n + 1]);
    if 0 <= j < before {
        assert(chain.told[j] == then.told[j]);
        assert(done.told[j] == first.told[j]);
    }
}

proof fn lemma_told_of_parts<K: GodSink>(
    job: Job,
    out: Outside,
    run: Run<K::State>,
    k: nat,
    j: int,
)
    requires
        parts_upto::<K>(job, out, run, k).end is Ok,
    ensures
        ({
            let told = parts_upto::<K>(job, out, run, k).told;
            let before = run.told.len() as int;
            &&& run.end is Ok
            &&& told.len() == before + k
            &&& 0 <= j < before ==> told[j] == run.told[j]
            &&& told.take(before) == run.told
            &&& 1 <= j <= k ==> told[before + j - 1] == event(
                "parts"@,
                j,
                job.report.part_count as int,
            )
        }),
    decreases k,
{
    if k > 0 {
        lemma_told_of_parts::<K>(job, out, run, (k - 1) as nat, j);
        let before = parts_upto::<K>(job, out, run, (k - 1) as nat);
        assert(before.end is Ok);
    }
    assert(parts_upto::<K>(job, out, run, k).told.take(run.told.len() as int) =~= run.told);
}

proof fn lemma_told_of_chain<K: GodSink>(
    job: Job,
    out: Outside,
    run: Run<K::State>,
    k: nat,
    j: int,
)
    requires
        chain_upto::<K>(job, out, run, k).end is Ok,
    ensures
        ({
            let told = chain_upto::<K>(job, out, run, k).told;
            let before = run.told.len() as int;
            &&& run.end is Ok
            &&& told.len() == before + k
            &&& told.take(before) == run.told
            &&& 2 <= j <= k + 1 ==> told[before + j - 2] == event(
                "mht"@,
                j,
                job.report.part_count as int,
            )
        }),
    decreases k,
{
    if k > 0 {
        lemma_told_of_chain::<K>(job, out, run, (k - 1) as nat, j);
        let before = chain_upto::<K>(job, out, run, (k - 1) as nat);
        assert(before.end is Ok);
    }
    assert(chain_upto::<K>(job, out, run, k).told.take(run.told.len() as int) =~= run.told);
}

} // verus!
