use vstd::prelude::*;
use crate::util::rsum::Rsum;

verus! {

pub const CONFIG_BLOCK_LENGTH: usize = 1024;

pub const CONFIG_CHUNK_SIZE: usize = 32768;

/// Parameters of one checksum-generation session: the block length the weak
/// sum rolls over and the truncation width of the strong sum, together with
/// the rolling-checksum state itself.
pub struct Configuration {
    pub block_length: usize,
    pub strong_sum_length: usize,
    pub do_run_length: bool,
    pub checksum_seed: Vec<u8>,
    pub chunk_size: usize,
    pub weak_sum: Rsum,
}

impl Configuration {
    pub fn new() -> (r: Configuration)
        ensures
            r.block_length == CONFIG_BLOCK_LENGTH,
            r.strong_sum_length == 0,
            r.do_run_length == false,
            r.checksum_seed@ == Seq::<u8>::empty(),
            r.chunk_size == CONFIG_CHUNK_SIZE,
            r.weak_sum.shape_wf(),
            r.weak_sum.spec_block_length() == 0,
    {
        Configuration {
            block_length: CONFIG_BLOCK_LENGTH,
            strong_sum_length: 0,
            do_run_length: false,
            checksum_seed: Vec::new(),
            chunk_size: CONFIG_CHUNK_SIZE,
            weak_sum: Rsum::new(),
        }
    }
}

} // verus!
