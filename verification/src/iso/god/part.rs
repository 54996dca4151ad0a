//! Data files: a stretch of the image with the hashes of its blocks.

use vstd::prelude::*;
use crate::device::{Device, MAX_DEVICE_SIZE};
use crate::error::{FatxError, Result};
use crate::volume::fault;
use super::hash_list::{hash_of, page, HashList};
use super::{BLOCK_SIZE, PART_DATA, SUBPARTS_PER_PART, SUBPART_SIZE};

verus! {

/// The smaller of two numbers.
pub open spec fn lesser(a: int, b: int) -> int {
    if a < b {
        a
    } else {
        b
    }
}

/// How many bytes of an image of `data_size` bytes go into Data file number `part_index`.
pub open spec fn payload_size(data_size: int, part_index: int) -> int {
    let rest = data_size - part_index * PART_DATA;
    if rest < 0 {
        0
    } else {
        lesser(rest, PART_DATA as int)
    }
}

/// The image that starts at `offset` of a device.
pub open spec fn image_at(bytes: Seq<u8>, offset: int) -> Seq<u8> {
    if offset >= bytes.len() {
        seq![]
    } else {
        bytes.skip(offset)
    }
}

/// The bytes of the image that go into Data file number `part_index`, at most `limit` of
/// them. An image that ends early gives fewer.
pub open spec fn payload(image: Seq<u8>, part_index: int, limit: int) -> Seq<u8> {
    let start = part_index * PART_DATA;
    let end = lesser(start + lesser(limit, PART_DATA as int), image.len() as int);
    if end <= start {
        seq![]
    } else {
        image.subrange(start, end)
    }
}

/// The hashes of the blocks of `data`, one behind the other. The last block may be short.
pub open spec fn block_hashes(data: Seq<u8>) -> Seq<u8>
    decreases data.len(),
{
    if data.len() == 0 {
        seq![]
    } else {
        let n = lesser(data.len() as int, BLOCK_SIZE as int);
        hash_of(data.take(n)) + block_hashes(data.skip(n))
    }
}

/// The page that stands in front of a subpart.
pub open spec fn subpart_page(subpart: Seq<u8>) -> Seq<u8> {
    page(block_hashes(subpart))
}

/// The subparts of `data`, each behind its page. The last one may be short.
pub open spec fn part_body(data: Seq<u8>) -> Seq<u8>
    decreases data.len(),
{
    if data.len() == 0 {
        seq![]
    } else {
        let n = lesser(data.len() as int, SUBPART_SIZE as int);
        subpart_page(data.take(n)) + data.take(n) + part_body(data.skip(n))
    }
}

/// The hashes of the pages that stand in front of the subparts of `data`.
pub open spec fn part_master(data: Seq<u8>) -> Seq<u8>
    decreases data.len(),
{
    if data.len() == 0 {
        seq![]
    } else {
        let n = lesser(data.len() as int, SUBPART_SIZE as int);
        hash_of(subpart_page(data.take(n))) + part_master(data.skip(n))
    }
}

/// A Data file that holds `data`.
pub open spec fn part_image(data: Seq<u8>) -> Seq<u8> {
    page(part_master(data)) + part_body(data)
}

/// How many bytes of an image of `data_size` bytes go into Data file number `part_index`.
pub fn part_payload_bytes(data_size: u64, part_index: u64) -> (n: u64)
    ensures
        n == payload_size(data_size as int, part_index as int),
{
    if part_index > u64::MAX / PART_DATA {
        assert(part_index * PART_DATA > u64::MAX) by (nonlinear_arith)
            requires
                part_index >= u64::MAX / 0xa1c4000u64 + 1,
                PART_DATA == 0xa1c4000u64,
        ;
        return 0;
    }
    assert(part_index * PART_DATA <= u64::MAX) by (nonlinear_arith)
        requires
            0 <= part_index <= u64::MAX / 0xa1c4000u64,
            PART_DATA == 0xa1c4000u64,
    ;
    let part_start: u64 = part_index * PART_DATA;
    let rest: u64 = data_size.saturating_sub(part_start);
    if rest < PART_DATA {
        rest
    } else {
        PART_DATA
    }
}

/// The hashes of the blocks of a subpart.
fn hash_blocks(data: &Vec<u8>) -> (list: HashList)
    requires
        data@.len() <= SUBPART_SIZE,
    ensures
        list.wf(),
        list@ == block_hashes(data@),
{
    let mut list = HashList::new();
    let mut pos: usize = 0;
    proof {
        assert(data@.skip(0) =~= data@);
        assert(list@ + block_hashes(data@) =~= block_hashes(data@));
    }
    while pos < data.len()
        invariant
            data@.len() <= SUBPART_SIZE,
            pos <= data.len(),
            list.wf(),
            pos == data.len() || pos % 4096 == 0,
            list@.len() == (pos + 4095) / 4096 * 20,
            list@ + block_hashes(data@.skip(pos as int)) == block_hashes(data@),
        decreases data.len() - pos,
    {
        let ghost before = list@;
        let end: usize = if data.len() - pos < BLOCK_SIZE as usize {
            data.len()
        } else {
            pos + BLOCK_SIZE as usize
        };
        let block = vstd::slice::slice_subrange(data.as_slice(), pos, end);
        list.add_block_hash(block);
        proof {
            let rest = data@.skip(pos as int);
            assert(rest.take(end - pos) =~= block@);
            assert(rest.skip(end - pos) =~= data@.skip(end as int));
            assert(list@ + block_hashes(data@.skip(end as int)) =~= before + block_hashes(rest));
        }
        pos = end;
    }
    proof {
        assert(block_hashes(data@.skip(pos as int)) =~= seq![]);
        assert(list@ + Seq::<u8>::empty() =~= list@);
    }
    list
}

/// Reads at most `want` bytes at `offset`: fewer where the device ends.
fn read_up_to<S: Device>(image: &mut S, offset: u64, want: usize) -> (r: Result<Vec<u8>>)
    requires
        old(image).inv(),
        want > 0,
    ensures
        final(image).inv(),
        final(image).state() == old(image).state(),
        fault(r) ==> !old(image).state().reliable,
        !fault(r) ==> (r matches Ok(data) && data@ == (if offset >= old(
            image,
        ).state().bytes.len() {
            seq![]
        } else {
            old(image).state().bytes.subrange(
                offset as int,
                lesser(offset + want, old(image).state().bytes.len() as int),
            )
        })),
{
    let size = match image.size() {
        Ok(size) => size,
        Err(e) => return Err(FatxError::Io(e)),
    };
    if offset >= size {
        return Ok(Vec::new());
    }
    let left: u64 = size - offset;
    let n: usize = if left < want as u64 { left as usize } else { want };
    match image.read_exact_at(offset, n) {
        Ok(data) => Ok(data),
        Err(e) => Err(FatxError::Io(e)),
    }
}

/// Adds one subpart, behind its page, to a Data file, and the hash of the page to `master`.
fn add_subpart(out: &mut Vec<u8>, master: &mut HashList, subpart: &Vec<u8>)
    requires
        old(master).wf(),
        old(master).has_room(),
        subpart@.len() <= SUBPART_SIZE,
    ensures
        final(master).wf(),
        final(master)@ == old(master)@ + hash_of(subpart_page(subpart@)),
        final(out)@ == old(out)@ + subpart_page(subpart@) + subpart@,
{
    let list = hash_blocks(subpart);
    let page = list.bytes();
    master.add_block_hash(page.as_slice());
    out.extend_from_slice(page.as_slice());
    out.extend_from_slice(subpart.as_slice());
    assert(out@ =~= old(out)@ + subpart_page(subpart@) + subpart@);
}

/// What a read inside a Data file's stretch of the image finds.
proof fn lemma_window(
    bytes: Seq<u8>,
    root_offset: int,
    part_index: int,
    limit: int,
    pos: int,
    want: int,
) -> (got: int)
    requires
        root_offset >= 0,
        part_index >= 0,
        0 <= limit <= PART_DATA,
        0 <= pos <= payload(image_at(bytes, root_offset), part_index, limit).len(),
        want == lesser(SUBPART_SIZE as int, limit - pos),
    ensures
        ({
            let data = payload(image_at(bytes, root_offset), part_index, limit);
            let at = root_offset + part_index * PART_DATA + pos;
            &&& data.len() <= limit
            &&& got == lesser(data.len() - pos, SUBPART_SIZE as int)
            &&& got <= want
            &&& got < want ==> pos + got == data.len()
            &&& data.skip(pos).take(got) == (if at >= bytes.len() {
                Seq::<u8>::empty()
            } else {
                bytes.subrange(at, lesser(at + want, bytes.len() as int))
            })
        }),
{
    let image = image_at(bytes, root_offset);
    let data = payload(image, part_index, limit);
    let start = part_index * PART_DATA;
    assert(start >= 0) by (nonlinear_arith)
        requires
            part_index >= 0,
            start == part_index * PART_DATA,
    ;
    let got = lesser(data.len() - pos, SUBPART_SIZE as int);
    let at = root_offset + start + pos;
    if at >= bytes.len() {
        assert(data.skip(pos).take(got) =~= Seq::<u8>::empty());
    } else {
        assert(data.skip(pos).take(got) =~= bytes.subrange(
            at,
            lesser(at + want, bytes.len() as int),
        ));
    }
    got
}

/// Puts a page at the start of a Data file.
fn set_first_page(out: &mut Vec<u8>, page: &Vec<u8>)
    requires
        page@.len() == BLOCK_SIZE,
        old(out)@.len() >= BLOCK_SIZE,
    ensures
        final(out)@ == page@ + old(out)@.skip(BLOCK_SIZE as int),
{
    let n: usize = page.len();
    for i in 0..n
        invariant
            n == page@.len() == BLOCK_SIZE,
            out@.len() == old(out)@.len(),
            out@.len() >= BLOCK_SIZE,
            forall|k: int| 0 <= k < i ==> out@[k] == page@[k],
            forall|k: int| i <= k < out@.len() ==> out@[k] == old(out)@[k],
    {
        out[i] = page[i];
    }
    assert(out@ =~= page@ + old(out)@.skip(BLOCK_SIZE as int));
}

/// Builds Data file number `part_index` of the image that starts at `root_offset` of a
/// device, with at most `remaining_bytes` bytes of it. Gives the file and the list of the
/// hashes on its first page.
pub fn fill_part_buf<S: Device>(
    image: &mut S,
    root_offset: u64,
    part_index: u64,
    remaining_bytes: u64,
) -> (r: Result<(Vec<u8>, HashList)>)
    requires
        old(image).inv(),
        root_offset + part_index * PART_DATA <= MAX_DEVICE_SIZE,
    ensures
        final(image).inv(),
        final(image).state() == old(image).state(),
        fault(r) ==> !old(image).state().reliable,
        !fault(r) ==> (r matches Ok(part) && {
            let data = payload(
                image_at(old(image).state().bytes, root_offset as int),
                part_index as int,
                remaining_bytes as int,
            );
            &&& part.0@ == part_image(data)
            &&& part.1.wf()
            &&& part.1@ == part_master(data)
            &&& part.1.has_room()
        }),
{
    let ghost bytes = image.state().bytes;
    assert(part_index * PART_DATA >= 0) by (nonlinear_arith);
    let start: u64 = root_offset + part_index * PART_DATA;
    let mut master = HashList::new();
    let mut out: Vec<u8> = Vec::new();
    out.resize(BLOCK_SIZE as usize, 0);
    let ghost blank = out@;
    let mut bytes_left: u64 = if remaining_bytes < PART_DATA { remaining_bytes } else { PART_DATA };
    let ghost limit = bytes_left as int;
    let ghost data = payload(image_at(bytes, root_offset as int), part_index as int, limit);
    let mut pos: u64 = 0;
    let mut count: u32 = 0;
    let mut ended = false;
    proof {
        assert(data.skip(0) =~= data);
        assert(blank + part_body(data) =~= blank + part_body(data.skip(0)));
        assert(master@ + part_master(data) =~= part_master(data));
    }
    while count < SUBPARTS_PER_PART && bytes_left > 0 && !ended
        invariant
            image.inv(),
            image.state() == old(image).state(),
            bytes == old(image).state().bytes,
            0 <= limit <= PART_DATA,
            data == payload(image_at(bytes, root_offset as int), part_index as int, limit),
            start == root_offset + part_index * PART_DATA,
            start <= MAX_DEVICE_SIZE,
            count <= SUBPARTS_PER_PART,
            pos + bytes_left == limit,
            pos <= data.len() <= limit,
            ended ==> pos == data.len(),
            !ended && bytes_left > 0 ==> pos == count * SUBPART_SIZE,
            master.wf(),
            master@.len() == count * 20,
            blank.len() == BLOCK_SIZE,
            out@ + part_body(data.skip(pos as int)) == blank + part_body(data),
            master@ + part_master(data.skip(pos as int)) == part_master(data),
        decreases SUBPARTS_PER_PART - count, if ended { 0int } else { 1int },
    {
        let want: usize = if bytes_left < SUBPART_SIZE { bytes_left as usize } else { SUBPART_SIZE as usize };
        let ghost got = lemma_window(
            bytes,
            root_offset as int,
            part_index as int,
            limit,
            pos as int,
            want as int,
        );
        let subpart = match read_up_to(image, start + pos, want) {
            Ok(subpart) => subpart,
            Err(e) => return Err(e),
        };
        let ghost rest = data.skip(pos as int);
        assert(subpart@ == rest.take(got));
        if subpart.len() == 0 {
            ended = true;
        } else {
            let ghost old_out = out@;
            let ghost old_master = master@;
            add_subpart(&mut out, &mut master, &subpart);
            proof {
                assert(rest.skip(got) =~= data.skip(pos + got));
                assert(part_body(rest) == subpart_page(subpart@) + subpart@ + part_body(
                    rest.skip(got),
                ));
                assert(out@ + part_body(rest.skip(got)) =~= old_out + part_body(rest));
                assert(master@ + part_master(rest.skip(got)) =~= old_master + part_master(rest));
            }
            pos = pos + subpart.len() as u64;
            bytes_left = bytes_left - subpart.len() as u64;
            if subpart.len() < want {
                ended = true;
            }
            count = count + 1;
        }
    }
    proof {
        assert(pos == data.len());
        assert(data.skip(pos as int) =~= seq![]);
        assert(out@ =~= blank + part_body(data));
        assert(master@ =~= part_master(data));
    }
    let first = master.bytes();
    set_first_page(&mut out, &first);
    proof {
        assert((blank + part_body(data)).skip(BLOCK_SIZE as int) =~= part_body(data));
        let image_bytes = image_at(bytes, root_offset as int);
        assert(data == payload(image_bytes, part_index as int, remaining_bytes as int));
    }
    Ok((out, master))
}

} // verus!
