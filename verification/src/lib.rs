pub mod file_maker;
pub mod meta_file;
pub mod util;

use vstd::prelude::*;

verus! {

/// Zero-extended byte read: positions past the end of the data read as zero,
/// matching the zero padding the scan applies near end of file.
pub open spec fn win_byte(d: Seq<u8>, i: int) -> u8 {
    if 0 <= i < d.len() {
        d[i]
    } else {
        0
    }
}

} // verus!
