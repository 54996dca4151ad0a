//! Storage devices: what a volume lives on.

use vstd::prelude::*;
use crate::error::{IoError, IoKind};

verus! {

/// The highest offset a device can be addressed at; operating systems count file
/// offsets in signed 64-bit numbers.
pub const MAX_DEVICE_SIZE: u64 = 0x7FFF_FFFF_FFFF_FFFF;

/// `bytes` after `data` has been written at `offset`. Writing past the end makes the
/// device longer; a gap is filled with zeros.
pub open spec fn splice(bytes: Seq<u8>, offset: nat, data: Seq<u8>) -> Seq<u8> {
    let end = offset + data.len();
    Seq::new(
        if end > bytes.len() { end } else { bytes.len() },
        |i: int|
            if offset <= i < end {
                data[i - offset]
            } else if i < bytes.len() {
                bytes[i]
            } else {
                0u8
            },
    )
}

/// `bytes` cut to `size`, or filled up to it with zeros.
pub open spec fn resized(bytes: Seq<u8>, size: nat) -> Seq<u8> {
    Seq::new(
        size,
        |i: int|
            if i < bytes.len() {
                bytes[i]
            } else {
                0u8
            },
    )
}

/// What can be observed of a device.
#[verifier::ext_equal]
pub struct DeviceState {
    /// The bytes on the device.
    pub bytes: Seq<u8>,
    /// The number of bytes the device can hold; writes may make it longer up to here.
    pub capacity: nat,
    /// The device never fails for reasons of its own.
    pub reliable: bool,
    /// The bytes that are known to be on the medium. What has been written may or may not have
    /// reached it before it is flushed.
    pub stored: Seq<u8>,
}

/// A device that can be read and written at any offset: a disk image, a block device, or
/// a block of memory.
pub trait Device: Sized {
    /// What can be observed of the device.
    spec fn state(&self) -> DeviceState;

    /// What an implementation keeps between calls.
    spec fn inv(&self) -> bool;

    /// A device holds no more than it can, and can be addressed throughout.
    proof fn lemma_bounds(&self)
        requires
            self.inv(),
        ensures
            self.state().bytes.len() <= self.state().capacity <= MAX_DEVICE_SIZE,
    ;

    /// The number of bytes on the device.
    fn size(&mut self) -> (r: Result<u64, IoError>)
        requires
            old(self).inv(),
        ensures
            final(self).inv(),
            final(self).state() == old(self).state(),
            match r {
                Ok(n) => n == old(self).state().bytes.len(),
                Err(e) => e@ == IoKind::Device && !old(self).state().reliable,
            },
    ;

    /// Reads exactly `len` bytes from `offset` on.
    fn read_exact_at(&mut self, offset: u64, len: usize) -> (r: Result<Vec<u8>, IoError>)
        requires
            old(self).inv(),
            len > 0,
        ensures
            final(self).inv(),
            final(self).state() == old(self).state(),
            match r {
                Ok(data) => {
                    &&& offset + len <= old(self).state().bytes.len()
                    &&& data@ == old(self).state().bytes.subrange(offset as int, offset + len)
                },
                Err(e) => {
                    ||| e@ == IoKind::UnexpectedEof && offset + len > old(self).state().bytes.len()
                    ||| e@ == IoKind::Device && !old(self).state().reliable
                },
            },
    ;

    /// Writes all of `data` from `offset` on.
    fn write_all_at(&mut self, offset: u64, data: &[u8]) -> (r: Result<(), IoError>)
        requires
            old(self).inv(),
            data.len() > 0,
        ensures
            final(self).inv(),
            final(self).state().capacity == old(self).state().capacity,
            final(self).state().reliable == old(self).state().reliable,
            match r {
                Ok(_) => {
                    &&& offset + data.len() <= old(self).state().capacity
                    &&& final(self).state().bytes == splice(old(self).state().bytes, offset as nat, data@)
                },
                Err(e) => {
                    ||| {
                        &&& e@ == IoKind::OutOfSpace
                        &&& offset + data.len() > old(self).state().capacity
                        &&& final(self).state().bytes == old(self).state().bytes
                    }
                    ||| e@ == IoKind::Device && !old(self).state().reliable
                },
            },
    ;

    /// Makes the device `size` bytes long: what lies behind is lost, what is new is zero.
    fn set_len(&mut self, size: u64) -> (r: Result<(), IoError>)
        requires
            old(self).inv(),
        ensures
            final(self).inv(),
            final(self).state().capacity == old(self).state().capacity,
            final(self).state().reliable == old(self).state().reliable,
            match r {
                Ok(_) => {
                    &&& size <= old(self).state().capacity
                    &&& final(self).state().bytes == resized(old(self).state().bytes, size as nat)
                },
                Err(e) => {
                    ||| {
                        &&& e@ == IoKind::OutOfSpace
                        &&& size > old(self).state().capacity
                        &&& final(self).state().bytes == old(self).state().bytes
                    }
                    ||| e@ == IoKind::Device && !old(self).state().reliable
                },
            },
    ;

    /// Hands everything written so far to the medium.
    fn flush(&mut self) -> (r: Result<(), IoError>)
        requires
            old(self).inv(),
        ensures
            final(self).inv(),
            final(self).state() == (DeviceState {
                stored: final(self).state().stored,
                ..old(self).state()
            }),
            match r {
                Ok(_) => final(self).state().stored == old(self).state().bytes,
                Err(e) => e@ == IoKind::Device && !old(self).state().reliable,
            },
    ;
}

/// A device in memory.
pub struct MemoryDevice {
    data: Vec<u8>,
}

impl MemoryDevice {
    /// A device that holds `data`. No vector is longer than the limit asked for here.
    pub fn new(data: Vec<u8>) -> (d: MemoryDevice)
        requires
            data.len() <= isize::MAX,
        ensures
            d.inv(),
            d.state().bytes == data@,
            d.state().capacity == isize::MAX,
            d.state().reliable,
            d.state().stored == data@,
    {
        MemoryDevice { data }
    }

    /// The bytes on the device.
    pub fn into_inner(self) -> (data: Vec<u8>)
        ensures
            data@ == self.state().bytes,
    {
        self.data
    }
}

impl Device for MemoryDevice {
    closed spec fn state(&self) -> DeviceState {
        DeviceState {
            bytes: self.data@,
            capacity: isize::MAX as nat,
            reliable: true,
            stored: self.data@,
        }
    }

    closed spec fn inv(&self) -> bool {
        self.data.len() <= isize::MAX
    }

    proof fn lemma_bounds(&self) {
    }

    fn size(&mut self) -> (r: Result<u64, IoError>) {
        Ok(self.data.len() as u64)
    }

    fn read_exact_at(&mut self, offset: u64, len: usize) -> (r: Result<Vec<u8>, IoError>) {
        let n: u64 = self.data.len() as u64;
        if offset > n || len as u64 > n - offset {
            return Err(IoError::UnexpectedEof);
        }
        let start: usize = offset as usize;
        let mut out: Vec<u8> = Vec::new();
        out.extend_from_slice(&self.data[start..start + len]);
        assert(out@ =~= self.data@.subrange(offset as int, offset + len));
        Ok(out)
    }

    fn write_all_at(&mut self, offset: u64, data: &[u8]) -> (r: Result<(), IoError>) {
        let limit: u64 = isize::MAX as u64;
        if offset > limit || data.len() as u64 > limit - offset {
            return Err(IoError::OutOfSpace);
        }
        let start: usize = offset as usize;
        let end: usize = start + data.len();
        if end > self.data.len() {
            self.data.resize(end, 0);
        }
        let ghost grown = self.data@;
        let n: usize = data.len();
        for i in 0..n
            invariant
                n == data.len(),
                end == start + n,
                end <= self.data.len(),
                self.data@.len() == grown.len(),
                forall|k: int|
                    0 <= k < grown.len() ==> self.data@[k] == (if start <= k < start + i {
                        data@[k - start]
                    } else {
                        grown[k]
                    }),
        {
            self.data[start + i] = data[i];
        }
        assert(self.data@ =~= splice(old(self).data@, offset as nat, data@));
        Ok(())
    }

    fn set_len(&mut self, size: u64) -> (r: Result<(), IoError>) {
        let limit: u64 = isize::MAX as u64;
        if size > limit {
            return Err(IoError::OutOfSpace);
        }
        if self.data.len() == 0 {
            self.data = vec![0u8; size as usize];
        } else {
            self.data.resize(size as usize, 0);
        }
        assert(self.data@ =~= resized(old(self).data@, size as nat));
        Ok(())
    }

    fn flush(&mut self) -> (r: Result<(), IoError>) {
        Ok(())
    }
}

} // verus!
