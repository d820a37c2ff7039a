use vstd::prelude::*;

verus! {

/// Errors of a block device.
#[derive(Debug)]
pub enum BlockError {
    ReadError,
    WriteError,
    InvalidOffset,
    IoError,
}

/// Unified block device interface (storage-agnostic).
pub trait BlockDevice: Send + Sync {
    /// Reads block `lba` (logical block address) into `buf`, which must be
    /// block-size sized.
    fn read_block(&self, lba: u64, buf: &mut [u8]) -> Result<(), BlockError>;

    /// Writes `buf` to block `lba`.
    fn write_block(&self, lba: u64, buf: &[u8]) -> Result<(), BlockError>;

    /// Block size in bytes (typically 512).
    fn block_size(&self) -> usize;

    /// Total number of blocks on the device.
    fn block_count(&self) -> u64;
}

} // verus!
