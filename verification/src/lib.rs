use vstd::prelude::*;

pub mod codec;
pub mod forest;
pub mod metrics;
pub mod split;
pub mod tree;
pub mod record;

verus! {

/// Largest record count accepted by the split search; keeps the exact
/// 128-bit score comparisons free of overflow.
pub const MAX_SPLIT_ROWS: usize = 0x100_0000;

} // verus!
