//! What holds of every package.

use vstd::prelude::*;
use super::convert::Job;
use super::hash_list::{hash_of, page};
use super::part::{
    block_hashes, lesser, part_body, part_image, part_master, subpart_page,
};
use super::source::{ceil_div, law_part_count_is_just_enough, report_of};
use super::{BLOCK_SIZE, MAX_PART_BYTES, PART_DATA, SUBPART_SIZE};

verus! {

proof fn lemma_body_size(data: Seq<u8>)
    ensures
        part_body(data).len() == data.len() + ceil_div(data.len() as int, SUBPART_SIZE as int)
            * BLOCK_SIZE,
    decreases data.len(),
{
    if data.len() > 0 {
        let n = lesser(data.len() as int, SUBPART_SIZE as int);
        lemma_body_size(data.skip(n));
    }
}

/// A Data file has a page of its own, a page for each subpart, and the bytes of the image. A
/// full one has the size that the header counts it with, and none is larger.
pub proof fn law_part_size(data: Seq<u8>)
    ensures
        part_image(data).len() == BLOCK_SIZE + data.len() + ceil_div(
            data.len() as int,
            SUBPART_SIZE as int,
        ) * BLOCK_SIZE,
        data.len() == PART_DATA ==> part_image(data).len() == MAX_PART_BYTES,
        data.len() <= PART_DATA ==> part_image(data).len() <= MAX_PART_BYTES,
{
    lemma_body_size(data);
}

/// What is left of the subparts of a Data file when the pages in front of them are taken away.
pub open spec fn unpacked_body(body: Seq<u8>) -> Seq<u8>
    decreases body.len(),
{
    if body.len() <= BLOCK_SIZE {
        seq![]
    } else {
        let end = BLOCK_SIZE + lesser(body.len() - BLOCK_SIZE, SUBPART_SIZE as int);
        body.subrange(BLOCK_SIZE as int, end) + unpacked_body(body.skip(end))
    }
}

/// What is left of a Data file when its pages of hashes are taken away.
pub open spec fn unpacked(file: Seq<u8>) -> Seq<u8> {
    unpacked_body(file.skip(BLOCK_SIZE as int))
}

proof fn lemma_unpacked_body(data: Seq<u8>)
    ensures
        unpacked_body(part_body(data)) == data,
    decreases data.len(),
{
    let body = part_body(data);
    if data.len() > 0 {
        let n = lesser(data.len() as int, SUBPART_SIZE as int);
        let first = data.take(n);
        let rest = data.skip(n);
        lemma_unpacked_body(rest);
        lemma_body_size(rest);
        let head = subpart_page(first) + first;
        assert(body == head + part_body(rest));
        let end = BLOCK_SIZE + lesser(body.len() - BLOCK_SIZE, SUBPART_SIZE as int);
        assert(end == BLOCK_SIZE + n) by {
            if n < SUBPART_SIZE {
                assert(rest.len() == 0);
                assert(part_body(rest).len() == 0);
            }
        }
        assert(body.subrange(BLOCK_SIZE as int, end) =~= first);
        assert(body.skip(end) =~= part_body(rest));
        assert(first + rest =~= data);
    }
}

/// A Data file holds the bytes of the image that went into it.
pub proof fn law_part_unpacks(data: Seq<u8>)
    ensures
        unpacked(part_image(data)) == data,
{
    assert(part_image(data).skip(BLOCK_SIZE as int) =~= part_body(data));
    lemma_unpacked_body(data);
}

/// The bytes in the first `k` Data files of a job, one behind the other.
pub open spec fn joined(job: Job, k: nat) -> Seq<u8>
    decreases k,
{
    if k == 0 {
        seq![]
    } else {
        joined(job, (k - 1) as nat) + job.data(k - 1)
    }
}

proof fn lemma_joined(job: Job, k: nat)
    requires
        job.trimmed,
        k <= job.report.part_count,
        job.report == report_of(
            job.report.title_id,
            job.report.media_id,
            job.report.content_type,
            job.report.data_size,
        ),
        job.report.data_size <= job.image.len(),
    ensures
        joined(job, k) == job.image.take(
            lesser(k * PART_DATA, job.report.data_size as int),
        ),
    decreases k,
{
    let size = job.report.data_size as int;
    law_part_count_is_just_enough(
        job.report.title_id,
        job.report.media_id,
        job.report.content_type,
        job.report.data_size,
    );
    if k == 0 {
        assert(job.image.take(0) =~= seq![]);
    } else {
        let i = k - 1;
        lemma_joined(job, i as nat);
        assert(i * PART_DATA + PART_DATA == k * PART_DATA) by (nonlinear_arith)
            requires
                i == k - 1,
        ;
        assert(0 <= i * PART_DATA <= (job.report.part_count - 1) * PART_DATA) by (nonlinear_arith)
            requires
                0 <= i <= job.report.part_count - 1,
                PART_DATA > 0,
        ;
        assert(joined(job, k) =~= job.image.take(lesser(k * PART_DATA, size)));
    }
}

/// The Data files hold all the bytes that are packed, in order and without gaps, where the
/// image is as long as the report says.
pub proof fn law_parts_hold_the_image(job: Job)
    requires
        job.trimmed,
        job.report == report_of(
            job.report.title_id,
            job.report.media_id,
            job.report.content_type,
            job.report.data_size,
        ),
        job.report.data_size <= job.image.len(),
    ensures
        joined(job, job.report.part_count as nat) == job.image.take(
            job.report.data_size as int,
        ),
{
    law_part_count_is_just_enough(
        job.report.title_id,
        job.report.media_id,
        job.report.content_type,
        job.report.data_size,
    );
    lemma_joined(job, job.report.part_count as nat);
}

/// The first page of every Data file but the last ends with the hash of the first page of
/// the next one, and the header has the hash of the first page of the first one.
pub proof fn law_hashes_are_chained(job: Job, i: int)
    requires
        0 <= i,
        i + 1 < job.report.part_count,
    ensures
        job.chained(i) == part_master(job.data(i)) + hash_of(page(job.chained(i + 1))),
        job.chained(job.report.part_count - 1) == part_master(
            job.data(job.report.part_count - 1),
        ),
        job.header().mht_hash == hash_of(page(job.chained(0))),
{
}

/// Block number `b` of a stretch of the image.
pub open spec fn block(data: Seq<u8>, b: int, size: int) -> Seq<u8> {
    data.subrange(b * size, lesser((b + 1) * size, data.len() as int))
}

pub proof fn lemma_block_behind(data: Seq<u8>, b: int, size: int)
    requires
        size > 0,
        b >= 1,
        b * size < data.len(),
    ensures
        block(data, b, size) == block(data.skip(size), b - 1, size),
        (b - 1) * size < data.skip(size).len(),
        size <= data.len(),
{
    assert(b * size == (b - 1) * size + size && (b + 1) * size == b * size + size && (b - 1) * size
        >= 0) by (nonlinear_arith)
        requires
            size > 0,
            b >= 1,
    ;
    assert(block(data, b, size) =~= block(data.skip(size), b - 1, size));
}

pub proof fn lemma_first_block(data: Seq<u8>, size: int)
    requires
        size > 0,
    ensures
        block(data, 0, size) == data.take(lesser(data.len() as int, size)),
{
    assert(block(data, 0, size) =~= data.take(lesser(data.len() as int, size)));
}

proof fn lemma_block_hash(data: Seq<u8>, b: int)
    requires
        0 <= b,
        b * BLOCK_SIZE < data.len(),
    ensures
        20 * b + 20 <= block_hashes(data).len(),
        block_hashes(data).subrange(20 * b, 20 * b + 20) == hash_of(
            block(data, b, BLOCK_SIZE as int),
        ),
    decreases b,
{
    let n = lesser(data.len() as int, BLOCK_SIZE as int);
    let list = block_hashes(data);
    assert(list == hash_of(data.take(n)) + block_hashes(data.skip(n)));
    if b == 0 {
        lemma_first_block(data, BLOCK_SIZE as int);
        assert(list.subrange(0, 20) =~= hash_of(data.take(n)));
    } else {
        lemma_block_behind(data, b, BLOCK_SIZE as int);
        lemma_block_hash(data.skip(n), b - 1);
        assert(list.subrange(20 * b, 20 * b + 20) =~= block_hashes(data.skip(n)).subrange(
            20 * (b - 1),
            20 * (b - 1) + 20,
        ));
    }
}

proof fn lemma_page_hash(data: Seq<u8>, b: int)
    requires
        0 <= b,
        b * SUBPART_SIZE < data.len(),
    ensures
        20 * b + 20 <= part_master(data).len(),
        part_master(data).subrange(20 * b, 20 * b + 20) == hash_of(
            subpart_page(block(data, b, SUBPART_SIZE as int)),
        ),
    decreases b,
{
    let n = lesser(data.len() as int, SUBPART_SIZE as int);
    let list = part_master(data);
    assert(list == hash_of(subpart_page(data.take(n))) + part_master(data.skip(n)));
    if b == 0 {
        lemma_first_block(data, SUBPART_SIZE as int);
        assert(list.subrange(0, 20) =~= hash_of(subpart_page(data.take(n))));
    } else {
        lemma_block_behind(data, b, SUBPART_SIZE as int);
        lemma_page_hash(data.skip(n), b - 1);
        assert(list.subrange(20 * b, 20 * b + 20) =~= part_master(data.skip(n)).subrange(
            20 * (b - 1),
            20 * (b - 1) + 20,
        ));
    }
}

/// The page in front of a subpart has the hash of block number `b` of it at place `b`, and
/// the first page of a Data file has the hash of that page at the place of the subpart.
pub proof fn law_hashes_are_in_place(data: Seq<u8>, p: int, b: int)
    requires
        data.len() <= PART_DATA,
        0 <= p,
        p * SUBPART_SIZE < data.len(),
        0 <= b,
        b * BLOCK_SIZE < block(data, p, SUBPART_SIZE as int).len(),
    ensures
        ({
            let subpart = block(data, p, SUBPART_SIZE as int);
            &&& page(part_master(data)).subrange(20 * p, 20 * p + 20) == hash_of(
                subpart_page(subpart),
            )
            &&& subpart_page(subpart).subrange(20 * b, 20 * b + 20) == hash_of(
                block(subpart, b, BLOCK_SIZE as int),
            )
        }),
{
    let subpart = block(data, p, SUBPART_SIZE as int);
    assert(p < 0xcb) by (nonlinear_arith)
        requires
            p * 0xcc000 < 0xa1c4000,
    ;
    assert(subpart.len() <= SUBPART_SIZE) by (nonlinear_arith)
        requires
            subpart.len() == lesser((p + 1) * SUBPART_SIZE, data.len() as int) - p * SUBPART_SIZE,
    ;
    assert(b < 0xcc) by (nonlinear_arith)
        requires
            b * 0x1000 < 0xcc000,
    ;
    lemma_page_hash(data, p);
    lemma_block_hash(subpart, b);
    assert(page(part_master(data)).subrange(20 * p, 20 * p + 20) =~= part_master(data).subrange(
        20 * p,
        20 * p + 20,
    ));
    assert(subpart_page(subpart).subrange(20 * b, 20 * b + 20) =~= block_hashes(subpart).subrange(
        20 * b,
        20 * b + 20,
    ));
}

} // verus!
