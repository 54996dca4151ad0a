//! Finding volumes on a drive.

use vstd::prelude::*;
use crate::device::Device;
use crate::error::{FatxError, Result};
use crate::types::{all_known_partitions, is_valid_magic, valid_magic, XboxPartition};
use crate::volume::fault;

verus! {

/// A volume starts at `offset` of a device.
pub open spec fn volume_at(bytes: Seq<u8>, offset: u64) -> bool {
    offset + 4 <= bytes.len() && valid_magic(bytes.subrange(offset as int, offset + 4))
}

/// The first partitions of a table, `n` of them, of which a device holds the volumes.
pub open spec fn detected(bytes: Seq<u8>, table: Seq<XboxPartition>, n: nat) -> Seq<XboxPartition>
    decreases n,
{
    if n == 0 {
        seq![]
    } else {
        let before = detected(bytes, table, (n - 1) as nat);
        if volume_at(bytes, table[n - 1].offset) {
            before.push(table[n - 1])
        } else {
            before
        }
    }
}

/// Looks at `offset` of a device for the start of a volume.
fn probe<D: Device>(dev: &mut D, offset: u64) -> (r: Result<bool>)
    requires
        old(dev).inv(),
    ensures
        final(dev).inv(),
        final(dev).state() == old(dev).state(),
        fault(r) ==> !old(dev).state().reliable,
        !fault(r) ==> (r matches Ok(found) && found == volume_at(
            old(dev).state().bytes,
            offset,
        )),
{
    let size = match dev.size() {
        Ok(size) => size,
        Err(e) => return Err(FatxError::Io(e)),
    };
    if size < 4 || offset > size - 4 {
        return Ok(false);
    }
    match dev.read_exact_at(offset, 4) {
        Ok(b) => {
            let magic: [u8; 4] = [b[0], b[1], b[2], b[3]];
            assert(magic@ =~= b@);
            Ok(is_valid_magic(&magic))
        },
        Err(e) => Err(FatxError::Io(e)),
    }
}

/// Looks for volumes at the offsets of all known partitions.
pub fn detect_xbox_partitions<D: Device>(dev: &mut D) -> (r: Result<Vec<XboxPartition>>)
    requires
        old(dev).inv(),
    ensures
        final(dev).inv(),
        final(dev).state() == old(dev).state(),
        fault(r) ==> !old(dev).state().reliable,
        !fault(r) ==> r is Ok,
        r matches Ok(found) ==> exists|table: Seq<XboxPartition>|
            #[trigger] is_known_table(table) && found@ == detected(
                old(dev).state().bytes,
                table,
                table.len(),
            ),
{
    let table = all_known_partitions();
    let mut found: Vec<XboxPartition> = Vec::new();
    let mut i: usize = 0;
    while i < table.len()
        invariant
            i <= table.len(),
            dev.inv(),
            dev.state() == old(dev).state(),
            found@ == detected(old(dev).state().bytes, table@, i as nat),
        decreases table.len() - i,
    {
        match probe(dev, table[i].offset) {
            Ok(true) => found.push(table[i]),
            Ok(false) => {},
            Err(e) => return Err(e),
        }
        i = i + 1;
    }
    assert(is_known_table(table@));
    Ok(found)
}

/// The known partitions: those of the original Xbox, then those of the Xbox 360.
pub open spec fn is_known_table(t: Seq<XboxPartition>) -> bool {
    &&& t.len() == 10
    &&& crate::types::is_og_table(t.take(6))
    &&& crate::types::is_x360_table(t.skip(6))
}

} // verus!
