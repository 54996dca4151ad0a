//! Data files that are filled up to the end of the image.

use vstd::prelude::*;
use crate::device::{Device, MAX_DEVICE_SIZE};
use crate::error::Result;
use crate::iso::god::part::{fill_part_buf, image_at, part_image, payload};
use crate::volume::fault;

pub use crate::iso::god::hash_list::HashList;
pub use crate::iso::god::source::ContentType;
pub use crate::iso::god::{
    BLOCKS_PER_PART, BLOCKS_PER_SUBPART, BLOCK_SIZE, PART_DATA, SUBPARTS_PER_PART, SUBPART_SIZE,
};

verus! {

/// Builds Data file number `part_index` of the image that starts at `root_offset` of a
/// device.
pub fn write_part<S: Device>(image: &mut S, root_offset: u64, part_index: u64) -> (r: Result<
    Vec<u8>,
>)
    requires
        old(image).inv(),
        root_offset + part_index * PART_DATA <= MAX_DEVICE_SIZE,
    ensures
        final(image).inv(),
        final(image).state() == old(image).state(),
        fault(r) ==> !old(image).state().reliable,
        !fault(r) ==> (r matches Ok(file) && file@ == part_image(
            payload(
                image_at(old(image).state().bytes, root_offset as int),
                part_index as int,
                PART_DATA as int,
            ),
        )),
{
    match fill_part_buf(image, root_offset, part_index, PART_DATA) {
        Ok((file, _)) => Ok(file),
        Err(e) => Err(e),
    }
}

} // verus!
