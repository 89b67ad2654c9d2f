//! A counting codec: a file is stored as the number of its zero bits and the
//! number of its one bits, and read back as a stream with that many of each.

use vstd::prelude::*;

pub mod download;
pub mod locator;
pub mod serve;
pub mod upload;

pub use download::{download, stream_len, write_pages, Reconstructor, PAGESZ};
pub use locator::SERVER_BASE;
pub use serve::{handler, Method, Reply};
pub use upload::{get_ones_table, upload, BitCounter};

verus! {

/// How many zero bits and how many one bits a stream of bits holds. The
/// counts have 64 bits on every machine.
#[derive(Clone, Copy, Debug, PartialEq, Eq, Structural)]
pub struct BitCounts {
    pub cnt0: u64,
    pub cnt1: u64,
}

impl BitCounts {
    /// Whether the bits fill whole bytes.
    pub open spec fn is_aligned(self) -> bool {
        (self.cnt0 + self.cnt1) % 8 == 0
    }

    /// The number of whole bytes that the bits fill.
    pub fn total_bytes(&self) -> (n: u64)
        ensures
            n == (self.cnt0 + self.cnt1) / 8,
    {
        self.cnt0 / 8 + self.cnt1 / 8 + (self.cnt0 % 8 + self.cnt1 % 8) / 8
    }
}

/// `n` bytes that all equal `b`.
pub open spec fn run_of(b: u8, n: nat) -> Seq<u8> {
    Seq::new(n, |i: int| b)
}

} // verus!
