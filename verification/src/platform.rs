//! What is known of the block device that a volume lies on.
//!
//! The numbers come from the operating system; the functions here say what they amount to.

use vstd::prelude::*;

verus! {

/// What is known of a block device.
#[derive(Debug, Clone, Copy)]
pub struct DeviceInfo {
    /// Logical block size, typically 512.
    pub block_size: u32,
    /// Physical block size, often 4096 on modern drives.
    pub physical_block_size: u32,
    /// Size of the device in bytes.
    pub device_size: u64,
    /// The most bytes the driver reads at once; 0 if not known.
    pub max_read_bytes: u64,
    /// The most bytes the driver writes at once; 0 if not known.
    pub max_write_bytes: u64,
}

/// The size of a block device on a system that cannot be asked for it.
pub fn get_block_device_size(_fd: i32) -> (size: Option<u64>)
    ensures
        size is None,
{
    None
}

/// What is known of a block device on a system that cannot be asked about it.
pub fn configure_device_io(_fd: i32) -> (info: Option<DeviceInfo>)
    ensures
        info is None,
{
    None
}

/// The size of a block device, given what the system answered to the questions for the size
/// and the number of its blocks. The size in bytes must fit in 64 bits.
pub fn device_size_from(block_size: Option<u32>, block_count: Option<u64>) -> (size: Option<u64>)
    requires
        block_size is Some && block_count is Some ==> block_size->0 * block_count->0 <= u64::MAX,
    ensures
        match (block_size, block_count) {
            (Some(b), Some(n)) => size is Some && size->0 == b * n,
            _ => size is None,
        },
{
    match (block_size, block_count) {
        (Some(b), Some(n)) => Some(b as u64 * n),
        _ => None,
    }
}

/// What is known of a block device, given what the system answered. The size and the number
/// of blocks are needed; the physical block size is taken to be the logical one if the
/// system does not tell, and the transfer limits are taken to be unknown.
pub fn device_info_from(
    block_size: Option<u32>,
    block_count: Option<u64>,
    physical_block_size: Option<u32>,
    max_read_bytes: Option<u64>,
    max_write_bytes: Option<u64>,
) -> (info: Option<DeviceInfo>)
    requires
        block_size is Some && block_count is Some ==> block_size->0 * block_count->0 <= u64::MAX,
    ensures
        match (block_size, block_count) {
            (Some(b), Some(n)) => info == Some(
                DeviceInfo {
                    block_size: b,
                    physical_block_size: match physical_block_size {
                        Some(p) => p,
                        None => b,
                    },
                    device_size: (b * n) as u64,
                    max_read_bytes: match max_read_bytes {
                        Some(m) => m,
                        None => 0,
                    },
                    max_write_bytes: match max_write_bytes {
                        Some(m) => m,
                        None => 0,
                    },
                },
            ),
            _ => info is None,
        },
{
    let block: u32 = match block_size {
        Some(b) => b,
        None => return None,
    };
    let device_size: u64 = match device_size_from(block_size, block_count) {
        Some(n) => n,
        None => return None,
    };
    let physical_block_size: u32 = match physical_block_size {
        Some(p) => p,
        None => block,
    };
    let max_read_bytes: u64 = match max_read_bytes {
        Some(m) => m,
        None => 0,
    };
    let max_write_bytes: u64 = match max_write_bytes {
        Some(m) => m,
        None => 0,
    };
    Some(
        DeviceInfo {
            block_size: block,
            physical_block_size,
            device_size,
            max_read_bytes,
            max_write_bytes,
        },
    )
}

} // verus!
