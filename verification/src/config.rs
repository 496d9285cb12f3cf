//! The sizes and the interval that both peers of a transfer agree on.

use crate::protocol::PART_HEADER;
use vstd::prelude::*;

verus! {

/// The settings of a transfer.
#[derive(Debug, Clone, Copy, PartialEq, Eq)]
pub struct Config {
    /// The longest frame that the path carries, in octets.
    pub mtu: usize,
    /// How many parts the receiver collects before it writes them out.
    pub batch: usize,
    /// The time between two polls of the sender, in milliseconds.
    pub sync_interval_ms: u64,
    /// How many octets the sender reads from the source file at once.
    pub block_size: usize,
}

impl Config {
    /// True if a transfer can run on these settings: a frame has room for at
    /// least one octet of a part, its length fits in 32 bits (so that the
    /// offset of every part fits in 64), the batch holds a part and a block
    /// holds an octet.
    pub open spec fn wf(&self) -> bool {
        &&& PART_HEADER < self.mtu <= u32::MAX
        &&& self.batch >= 1
        &&& self.block_size >= 1
    }

    /// The longest chunk that one frame carries.
    pub open spec fn spec_part_size(&self) -> nat {
        (self.mtu - PART_HEADER) as nat
    }

    /// Tells whether a transfer can run on these settings.
    pub fn is_valid(&self) -> (valid: bool)
        ensures
            valid == self.wf(),
    {
        PART_HEADER < self.mtu && self.mtu <= u32::MAX as usize && self.batch >= 1
            && self.block_size >= 1
    }

    /// The longest chunk that one frame carries: what the frame has room for
    /// after the tag and the part id.
    pub fn part_size(&self) -> (size: usize)
        requires
            self.wf(),
        ensures
            size == self.spec_part_size(),
            1 <= size < u32::MAX,
    {
        self.mtu - PART_HEADER
    }
}

impl Default for Config {
    /// Frames of 1500 octets, batches of 100 parts, a poll every 200
    /// milliseconds, blocks of 8 MiB.
    fn default() -> (config: Config)
        ensures
            config.mtu == 1500,
            config.batch == 100,
            config.sync_interval_ms == 200,
            config.block_size == 8 * 1024 * 1024,
            config.wf(),
    {
        Config { mtu: 1500, batch: 100, sync_interval_ms: 200, block_size: 8 * 1024 * 1024 }
    }
}

} // verus!
