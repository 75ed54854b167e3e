use vstd::prelude::*;
use crate::util::configuration::Configuration;
use crate::util::copy::arr_copy;
use crate::util::rsum::{rsum_value, wsum_a, wsum_b};

verus! {

/// What the MD4 digest of a byte sequence is. The digest is a fixed function
/// of the input bytes alone; its value is stated nowhere in this crate.
pub uninterp spec fn md4_digest(data: Seq<u8>) -> Seq<u8>;

/// Relies on md4::Md4 (a RustCrypto hash): digesting
/// `data[off .. off + len]` yields 16 bytes that depend on those bytes alone.
#[verifier::external_body]
fn md4_of(data: &Vec<u8>, off: usize, len: usize) -> (r: Vec<u8>)
    requires
        off + len <= data@.len(),
    ensures
        r@ == md4_digest(data@.subrange(off as int, off + len)),
        r@.len() == 16,
{
    let hash = <md4::Md4 as md4::Digest>::digest(&data[off..off + len]);
    hash.to_vec()
}

/// Computes weak and strong checksums over byte windows, as configured.
pub struct Generator {
    pub config: Configuration,
}

impl Generator {
    pub fn new(config: Configuration) -> (r: Generator)
        ensures
            r.config == config,
    {
        Generator { config }
    }

    /// Computes the weak rolling checksum from scratch over
    /// `buf[offset .. offset + blockLength]` and seeds the rolling window
    /// with `buf[0 .. blockLength]`.
    pub fn generate_weak_sum(&mut self, buf: &Vec<u8>, offset: usize) -> (r: u32)
        requires
            offset + old(self).config.block_length <= buf@.len(),
        ensures
            ({
                let bl = old(self).config.block_length as int;
                let win = buf@.subrange(offset as int, offset + bl)
;                &&& r == rsum_value(win)
                &&& final(self).config.block_length == old(self).config.block_length
                &&& final(self).config.strong_sum_length == old(self).config.strong_sum_length
                &&& final(self).config.weak_sum.shape_wf()
                &&& final(self).config.weak_sum.spec_block_length() == bl
                &&& final(self).config.weak_sum.window_of() == buf@.subrange(0, bl)
                &&& (offset == 0 ==> final(self).config.weak_sum.sum_ok())
            }),
    {
        let bl = self.config.block_length;
        let ghost win = buf@.subrange(offset as int, offset + bl as int);
        self.config.weak_sum.first(buf, offset, bl);
        let r = self.config.weak_sum.get_value();
        proof {
            assert(r == (wsum_a(win) % 0x10000) + 0x10000 * (wsum_b(win) % 0x10000));
        }
        r
    }

    /// Computes the strong checksum over `buf[off .. off + len]`: the MD4
    /// digest truncated to the configured strong-sum length.
    pub fn generate_strong_sum(&mut self, buf: &Vec<u8>, off: usize, len: usize) -> (r: Vec<u8>)
        requires
            off + len <= buf@.len(),
            old(self).config.strong_sum_length <= 16,
        ensures
            *final(self) == *old(self),
            r@ == md4_digest(buf@.subrange(off as int, off + len)).subrange(
                0,
                old(self).config.strong_sum_length as int,
            ),
            r@.len() == old(self).config.strong_sum_length,
    {
        let hash = md4_of(buf, off, len);
        let ssl = self.config.strong_sum_length;
        let mut strong_sum: Vec<u8> = Vec::new();
        let mut i: usize = 0;
        while i < ssl
            invariant
                i <= ssl,
                strong_sum@.len() == i,
            decreases ssl - i,
        {
            strong_sum.push(0);
            i += 1;
        }
        arr_copy(&hash, 0, &mut strong_sum, 0, ssl);
        proof {
            let d = md4_digest(buf@.subrange(off as int, off + len));
            assert forall|k: int| 0 <= k < ssl implies strong_sum@[k] == d[k] by {
                assert(strong_sum@[0 + k] == hash@[0 + k]);
            }
            assert(strong_sum@ =~= d.subrange(0, ssl as int));
        }
        strong_sum
    }

    /// Rolls the weak checksum forward by one byte and returns its value.
    pub fn generate_roll_sum(&mut self, b: u8) -> (r: u32)
        requires
            old(self).config.weak_sum.shape_wf(),
            old(self).config.weak_sum.spec_block_length() >= 1,
        ensures
            final(self).config.block_length == old(self).config.block_length,
            final(self).config.strong_sum_length == old(self).config.strong_sum_length,
            final(self).config.weak_sum.shape_wf(),
            final(self).config.weak_sum.spec_block_length() == old(
                self,
            ).config.weak_sum.spec_block_length(),
            final(self).config.weak_sum.window_of() == old(
                self,
            ).config.weak_sum.window_of().drop_first() + seq![b],
            old(self).config.weak_sum.sum_ok() ==> final(self).config.weak_sum.sum_ok(),
            old(self).config.weak_sum.sum_ok() ==> r == rsum_value(
                final(self).config.weak_sum.window_of(),
            ),
    {
        self.config.weak_sum.roll(b);
        self.config.weak_sum.get_value()
    }
}

} // verus!
