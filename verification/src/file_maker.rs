use vstd::prelude::*;
use crate::meta_file::{ceil_div, lemma_ceil_div, MetaFile};
use crate::util::chaininghash::{
    bucket_of, first_match_idx, first_weak_idx, lemma_first_match_idx, lemma_first_weak_idx,
    ChainingHash,
};
use crate::util::checksumpair::{ChecksumPair, PairV};
use crate::util::configuration::Configuration;
use crate::util::generator::{md4_digest, Generator};
use crate::util::rsum::rsum_value;
use crate::win_byte;

verus! {

/// The cap on how many consecutive blocks one missing range may span.
pub const RANGES: usize = 100;

/// One contiguous run of target blocks that must still be fetched.
#[derive(Clone, Copy, PartialEq, Eq, Structural, Debug)]
pub struct FilePart {
    pub start_offset: usize,
    pub end_offset: usize,
    pub block_length: usize,
    pub offset: usize,
}

/// The canonical 32-bit form of a live weak checksum under a declared
/// truncation width: with bytes `w0 w1 w2 w3` (most significant first), width
/// 4 keeps them, width 3 yields `w1 0 w3 w0`, width 2 yields `0 0 w0 w1`, and
/// any other width yields zero.
pub open spec fn canonical_weak(w: u32, rb: u32) -> u32 {
    let w0 = w / 0x1000000;
    let w1 = (w / 0x10000) % 0x100;
    let w2 = (w / 0x100) % 0x100;
    let w3 = w % 0x100;
    if rb == 2 {
        (w0 * 0x100 + w1) as u32
    } else if rb == 3 {
        (w1 * 0x1000000 + w3 * 0x100 + w0) as u32
    } else if rb == 4 {
        w
    } else {
        0
    }
}

/// Entries of the index hold block numbers below `n`, no two entries the
/// same one.
#[verifier::opaque]
pub open spec fn tbl_session(tbl: Seq<Seq<PairV>>, n: int) -> bool {
    &&& forall|b: int, k: int|
        0 <= b < tbl.len() && 0 <= k < tbl[b].len() ==> 0 <= (#[trigger] tbl[b][k]).seq < n
    &&& forall|b1: int, k1: int, b2: int, k2: int|
        0 <= b1 < tbl.len() && 0 <= k1 < tbl[b1].len() && 0 <= b2 < tbl.len() && 0 <= k2
            < tbl[b2].len() && (b1 != b2 || k1 != k2) ==> (#[trigger] tbl[b1][k1]).seq != (
        #[trigger] tbl[b2][k2]).seq
}

/// Every block number still in the index is unmatched in the block map.
#[verifier::opaque]
pub open spec fn claim_inv(tbl: Seq<Seq<PairV>>, m: Seq<i64>) -> bool {
    forall|b: int, k: int|
        0 <= b < tbl.len() && 0 <= k < tbl[b].len() ==> m[(#[trigger] tbl[b][k]).seq as int]
            == -1
}

/// The byte window of width `b` starting at `pos`, zero-padded past the end
/// of the data.
pub open spec fn window(d: Seq<u8>, pos: int, b: int) -> Seq<u8> {
    Seq::new(b as nat, |j: int| win_byte(d, pos + j))
}

/// How many consecutive unmatched blocks follow from `i`, capped at `cap`.
pub open spec fn run_len_from(m: Seq<i64>, i: int, cap: int) -> int
    decreases (if cap > 0 { cap } else { 0 }),
{
    if cap <= 0 || i < 0 || i >= m.len() || m[i] != -1 {
        0
    } else {
        1 + run_len_from(m, i + 1, cap - 1)
    }
}

/// The runs of unmatched blocks from `i` on, each given as
/// `(first block, block count)`, each capped at 100 blocks.
pub open spec fn runs_from(m: Seq<i64>, i: int) -> Seq<(int, int)>
    decreases (if m.len() - i > 0 { m.len() - i } else { 0 }),
{
    if i < 0 || i >= m.len() {
        Seq::empty()
    } else if m[i] != -1 {
        runs_from(m, i + 1)
    } else {
        let c = run_len_from(m, i, 100);
        let step = if c < 1 { 1int } else { c };
        seq![(i, c)] + runs_from(m, i + step)
    }
}

/// The missing range that a run of unmatched blocks yields: its byte span,
/// the true byte length of its last block, and a fresh scan position.
pub open spec fn part_of_run(run: (int, int), bs: int, length: int) -> FilePart {
    FilePart {
        start_offset: (run.0 * bs) as usize,
        end_offset: ((run.0 + run.1) * bs) as usize,
        block_length: spec_block_length(run.0 + run.1 - 1, bs, length) as usize,
        offset: 0,
    }
}

/// The byte length of block `i`: the block size, except that the final block
/// carries only what is left of the target length.
pub open spec fn spec_block_length(i: int, bs: int, length: int) -> int {
    if (i + 1) * bs < length {
        bs
    } else {
        length - i * bs
    }
}

/// One step of the orphan-filtering pass at index `i` of the block map: a
/// matched block whose existing neighbors are all unmatched is reverted to
/// unmatched. A map of one block has no neighbor and is kept.
pub open spec fn orphan_step(m: Seq<i64>, i: int) -> Seq<i64> {
    if 0 < i < m.len() - 1 {
        if m[i - 1] == -1 && m[i] != -1 && m[i + 1] == -1 {
            m.update(i, -1i64)
        } else {
            m
        }
    } else if i == 0 && m.len() >= 2 {
        if m[0] != -1 && m[1] == -1 {
            m.update(0, -1i64)
        } else {
            m
        }
    } else if i == m.len() - 1 && m.len() >= 2 {
        if m[i] != -1 && m[i - 1] == -1 {
            m.update(i, -1i64)
        } else {
            m
        }
    } else {
        m
    }
}

/// The orphan-filtering pass applied, in order, at indices `0 .. k`, each
/// step reading the map as the steps before it left it.
pub open spec fn orphan_pass_upto(m: Seq<i64>, k: int) -> Seq<i64>
    decreases (if k > 0 { k } else { 0 }),
{
    if k <= 0 {
        m
    } else {
        orphan_step(orphan_pass_upto(m, k - 1), k - 1)
    }
}

/// What the completion pass does to the block map: the orphan filter under
/// hash-length mode 2, the identity under any other mode.
pub open spec fn orphan_filter(m: Seq<i64>, sq: u32) -> Seq<i64> {
    if sq == 2 {
        orphan_pass_upto(m, m.len() as int)
    } else {
        m
    }
}

/// How many blocks of the map are unmatched.
pub open spec fn unmatched_count(m: Seq<i64>) -> int
    decreases m.len(),
{
    if m.len() == 0 {
        0
    } else {
        unmatched_count(m.drop_last()) + if m.last() == -1 {
            1int
        } else {
            0int
        }
    }
}

/// The completion percentage of a block map, in whole percent, rounded down;
/// zero for an empty map.
pub open spec fn completion_percent(m: Seq<i64>) -> int {
    if m.len() == 0 {
        0
    } else {
        (m.len() - unmatched_count(m)) * 100 / m.len() as int
    }
}

pub proof fn lemma_orphan_pass_len(m: Seq<i64>, k: int)
    ensures
        orphan_pass_upto(m, k).len() == m.len(),
    decreases (if k > 0 { k } else { 0 }),
{
    if k > 0 {
        lemma_orphan_pass_len(m, k - 1);
    }
}

/// The orphan-filtering pass never turns an unmatched block into a matched
/// one.
pub proof fn lemma_orphan_keeps_unmatched(m: Seq<i64>, k: int)
    ensures
        forall|i: int| 0 <= i < m.len() && m[i] == -1 ==> orphan_pass_upto(m, k)[i] == -1,
    decreases (if k > 0 { k } else { 0 }),
{
    if k > 0 {
        lemma_orphan_keeps_unmatched(m, k - 1);
        lemma_orphan_pass_len(m, k - 1);
    }
}

pub proof fn lemma_unmatched_count_bound(m: Seq<i64>)
    ensures
        0 <= unmatched_count(m) <= m.len(),
    decreases m.len(),
{
    if m.len() > 0 {
        lemma_unmatched_count_bound(m.drop_last());
    }
}

pub proof fn lemma_run_len(m: Seq<i64>, i: int, cap: int)
    requires
        cap >= 0,
        i >= 0,
    ensures
        0 <= run_len_from(m, i, cap) <= cap,
        i <= m.len() ==> i + run_len_from(m, i, cap) <= m.len(),
        forall|j: int| i <= j < i + run_len_from(m, i, cap) ==> m[j] == -1,
        run_len_from(m, i, cap) < cap && i + run_len_from(m, i, cap) < m.len() ==> m[i
            + run_len_from(m, i, cap)] != -1,
    decreases cap,
{
    if cap > 0 && i < m.len() && m[i] == -1 {
        lemma_run_len(m, i + 1, cap - 1);
    }
}

/// A stretch of unmatched blocks of known length and a known stop reason is
/// exactly what `run_len_from` counts.
proof fn lemma_run_len_eq(m: Seq<i64>, i: int, cap: int, c: int)
    requires
        0 <= c <= cap,
        i >= 0,
        i + c <= m.len(),
        forall|j: int| i <= j < i + c ==> m[j] == -1,
        c == cap || i + c == m.len() || m[i + c] != -1,
    ensures
        run_len_from(m, i, cap) == c,
    decreases c,
{
    if c == 0 {
    } else {
        assert(m[i] == -1);
        lemma_run_len_eq(m, i + 1, cap - 1, c - 1);
    }
}

proof fn lemma_unmatched_step(m: Seq<i64>, i: int)
    requires
        0 <= i < m.len(),
    ensures
        unmatched_count(m.subrange(0, i + 1)) == unmatched_count(m.subrange(0, i)) + if m[i]
            == -1 {
            1int
        } else {
            0int
        },
{
    let a = m.subrange(0, i + 1);
    assert(a.drop_last() =~= m.subrange(0, i));
    assert(a.last() == m[i]);
}


/// Weak-checksum canonicalization is stable under repetition, on the widths
/// and values where that holds: always at width 4; at width 2 only when the
/// two high bytes are zero; at width 3 only when every byte but the
/// second-lowest is zero. On other narrow-width values a second application
/// changes the value again.
pub proof fn lemma_canonical_idempotent(w: u32, rb: u32)
    requires
        rb == 4 || (rb == 2 && w < 0x10000) || (rb == 3 && w < 0x10000 && w % 0x100 == 0),
    ensures
        canonical_weak(canonical_weak(w, rb), rb) == canonical_weak(w, rb),
{
    if rb == 2 || rb == 3 {
        assert(w / 0x1000000 == 0) by {
            vstd::arithmetic::div_mod::lemma_basic_div(w as int, 0x1000000);
        }
        assert(w / 0x10000 == 0) by {
            vstd::arithmetic::div_mod::lemma_basic_div(w as int, 0x10000);
        }
    }
}

proof fn lemma_orphan_pass_all_unmatched(m: Seq<i64>, k: int)
    requires
        forall|i: int| 0 <= i < m.len() ==> m[i] == -1,
    ensures
        orphan_pass_upto(m, k) == m,
    decreases (if k > 0 { k } else { 0 }),
{
    if k > 0 {
        lemma_orphan_pass_all_unmatched(m, k - 1);
    }
}

proof fn lemma_unmatched_count_all(m: Seq<i64>)
    requires
        forall|i: int| 0 <= i < m.len() ==> m[i] == -1,
    ensures
        unmatched_count(m) == m.len(),
    decreases m.len(),
{
    if m.len() > 0 {
        assert(forall|i: int| 0 <= i < m.drop_last().len() ==> m.drop_last()[i] == -1);
        lemma_unmatched_count_all(m.drop_last());
    }
}

/// Scanning an empty candidate leaves the session untouched: every block
/// stays unmatched, the orphan filter changes nothing under any mode, and
/// the completion percentage is zero. With one to a hundred blocks there is
/// exactly one run, and its missing range spans the whole target, from byte
/// zero to the end of the last block.
pub proof fn lemma_empty_candidate(st0: ScanSt, d: Seq<u8>, bs: int, rb: u32, ssl: int, sq: u32,
    length: int)
    requires
        d.len() == 0,
        forall|i: int| 0 <= i < st0.map.len() ==> st0.map[i] == -1,
    ensures
        scan_upto(st0, d, d.len() as int, bs, rb, ssl) == st0,
        orphan_filter(st0.map, sq) == st0.map,
        completion_percent(orphan_filter(st0.map, sq)) == 0,
        1 <= st0.map.len() <= 100 ==> runs_from(st0.map, 0) =~= seq![
            (0int, st0.map.len() as int),
        ],
        (1 <= st0.map.len() <= 100 && 1 <= bs && st0.map.len() * bs <= usize::MAX) ==> ({
            let p = part_of_run((0int, st0.map.len() as int), bs, length);
            &&& p.start_offset == 0
            &&& p.end_offset == (st0.map.len() * bs) as usize
            &&& p.offset == 0
        }),
{
    let m = st0.map;
    lemma_orphan_pass_all_unmatched(m, m.len() as int);
    lemma_unmatched_count_all(m);
    if m.len() > 0 {
        assert((m.len() - unmatched_count(m)) * 100 == 0);
        assert(0int / m.len() as int == 0) by {
            vstd::arithmetic::div_mod::lemma_basic_div(0, m.len() as int);
        }
    }
    if 1 <= m.len() <= 100 {
        lemma_run_len_eq(m, 0, 100, m.len() as int);
        assert(runs_from(m, m.len() as int) =~= Seq::<(int, int)>::empty());
        assert(runs_from(m, 0) =~= seq![(0int, m.len() as int)]);
        if 1 <= bs && m.len() * bs <= usize::MAX {
            assert(0 * bs == 0) by (nonlinear_arith);
            assert((0 + m.len() as int) * bs == m.len() * bs);
        }
    }
}

/// The runs that the missing-range derivation walks are in ascending block
/// order, disjoint, non-empty, at most 100 blocks each, and cover a block
/// exactly when it is unmatched.
pub proof fn lemma_runs_from_props(m: Seq<i64>, i: int)
    requires
        0 <= i,
    ensures
        ({
            let runs = runs_from(m, i);
            &&& forall|k: int| 0 <= k < runs.len() ==> 1 <= (#[trigger] runs[k]).1 <= 100
            &&& forall|k: int|
                0 <= k < runs.len() ==> i <= (#[trigger] runs[k]).0 && runs[k].0 + runs[k].1
                    <= m.len()
            &&& forall|k: int|
                0 <= k < runs.len() - 1 ==> (#[trigger] runs[k]).0 + runs[k].1 <= runs[k
                    + 1].0
            &&& forall|k: int, j: int|
                0 <= k < runs.len() && (#[trigger] runs[k]).0 <= j < runs[k].0 + runs[k].1
                    ==> #[trigger] m[j] == -1
            &&& forall|j: int|
                i <= j < m.len() && m[j] == -1 ==> exists|k: int|
                    0 <= k < runs.len() && (#[trigger] runs[k]).0 <= j < runs[k].0
                        + runs[k].1
        }),
    decreases (if m.len() - i > 0 { m.len() - i } else { 0 }),
{
    let runs = runs_from(m, i);
    if i >= m.len() {
    } else if m[i] != -1 {
        lemma_runs_from_props(m, i + 1);
        let rest = runs_from(m, i + 1);
        assert(runs == rest);
        assert forall|k: int| 0 <= k < runs.len() implies 1 <= (#[trigger] runs[k]).1 <= 100
            && i <= runs[k].0 && runs[k].0 + runs[k].1 <= m.len() by {
            assert(runs[k] == rest[k]);
            assert(1 <= rest[k].1 <= 100);
            assert(i + 1 <= rest[k].0);
        }
        assert forall|j: int|
            i <= j < m.len() && m[j] == -1 implies exists|k: int|
                0 <= k < runs.len() && (#[trigger] runs[k]).0 <= j < runs[k].0 + runs[k].1 by {
            assert(j >= i + 1);
            let k0 = choose|k0: int|
                0 <= k0 < rest.len() && (#[trigger] rest[k0]).0 <= j < rest[k0].0 + rest[k0].1;
            assert(runs[k0].0 <= j < runs[k0].0 + runs[k0].1);
        }
    } else {
        let c = run_len_from(m, i, 100);
        lemma_run_len(m, i, 100);
        assert(c >= 1);
        let rest = runs_from(m, i + c);
        lemma_runs_from_props(m, i + c);
        assert(runs == seq![(i, c)] + rest);
        assert(runs[0] == (i, c));
        assert forall|k: int| 1 <= k < runs.len() implies runs[k] == rest[k - 1] by {}
        assert forall|k: int| 0 <= k < runs.len() implies 1 <= (#[trigger] runs[k]).1 <= 100 by {
            if k >= 1 {
                assert(runs[k] == rest[k - 1]);
            }
        }
        assert forall|k: int|
            0 <= k < runs.len() implies i <= (#[trigger] runs[k]).0 && runs[k].0 + runs[k].1
            <= m.len() by {
            if k >= 1 {
                assert(runs[k] == rest[k - 1]);
            }
        }
        assert forall|j: int|
            i <= j < m.len() && m[j] == -1 implies exists|k: int|
                0 <= k < runs.len() && (#[trigger] runs[k]).0 <= j < runs[k].0 + runs[k].1 by {
            if j < i + c {
                assert(runs[0].0 <= j < runs[0].0 + runs[0].1);
            } else {
                let k0 = choose|k0: int|
                    0 <= k0 < rest.len() && (#[trigger] rest[k0]).0 <= j < rest[k0].0
                        + rest[k0].1;
                assert(runs[k0 + 1].0 <= j < runs[k0 + 1].0 + runs[k0 + 1].1);
            }
        }
        assert forall|k: int, j: int|
            0 <= k < runs.len() && (#[trigger] runs[k]).0 <= j < runs[k].0 + runs[k].1 implies
            #[trigger] m[j] == -1 by {
            if k >= 1 {
                assert(runs[k] == rest[k - 1]);
            }
        }
        assert forall|k: int| 0 <= k < runs.len() - 1 implies (#[trigger] runs[k]).0 + runs[k].1
            <= runs[k + 1].0 by {
            if k == 0 {
                assert(runs[1] == rest[0]);
                assert(rest[0].0 >= i + c);
            } else {
                assert(runs[k] == rest[k - 1]);
                assert(runs[k + 1] == rest[k]);
            }
        }
    }
}


/// Runs are globally ordered: an earlier run ends at or before a later one
/// begins.
proof fn lemma_runs_ordered(runs: Seq<(int, int)>, k1: int, k2: int)
    requires
        forall|k: int| 0 <= k < runs.len() ==> 1 <= (#[trigger] runs[k]).1 <= 100,
        forall|k: int|
            0 <= k < runs.len() - 1 ==> (#[trigger] runs[k]).0 + runs[k].1 <= runs[k + 1].0,
        0 <= k1 < k2 < runs.len(),
    ensures
        runs[k1].0 + runs[k1].1 <= runs[k2].0,
    decreases k2 - k1,
{
    if k1 + 1 < k2 {
        lemma_runs_ordered(runs, k1, k2 - 1);
        assert(runs[k2 - 1].0 + runs[k2 - 1].1 <= runs[k2].0);
    }
}

/// Missing-range coverage: the ranges derived from a block map are ordered
/// and disjoint, none spans more than 100 blocks, and their byte intervals
/// together cover exactly the bytes of the blocks left unmatched.
pub proof fn lemma_missing_range_coverage(m: Seq<i64>, bs: int)
    requires
        bs >= 1,
    ensures
        ({
            let runs = runs_from(m, 0);
            &&& forall|k: int| 0 <= k < runs.len() ==> 1 <= (#[trigger] runs[k]).1 <= 100
            &&& forall|k1: int, k2: int|
                0 <= k1 < k2 < runs.len() ==> ((#[trigger] runs[k1]).0 + runs[k1].1) * bs
                    <= (#[trigger] runs[k2]).0 * bs
            &&& forall|x: int|
                0 <= x < m.len() * bs ==> (#[trigger] m[x / bs] == -1 <==> exists|k: int|
                    0 <= k < runs.len() && (#[trigger] runs[k]).0 * bs <= x < (runs[k].0
                        + runs[k].1) * bs)
        }),
{
    let runs = runs_from(m, 0);
    lemma_runs_from_props(m, 0);
    assert forall|k1: int, k2: int| 0 <= k1 < k2 < runs.len() implies ((#[trigger] runs[k1]).0
        + runs[k1].1) * bs <= (#[trigger] runs[k2]).0 * bs by {
        lemma_runs_ordered(runs, k1, k2);
        assert((runs[k1].0 + runs[k1].1) * bs <= runs[k2].0 * bs) by (nonlinear_arith)
            requires runs[k1].0 + runs[k1].1 <= runs[k2].0, bs >= 0;
    }
    assert forall|x: int| 0 <= x < m.len() * bs implies (#[trigger] m[x / bs] == -1
        <==> exists|k: int|
        0 <= k < runs.len() && (#[trigger] runs[k]).0 * bs <= x < (runs[k].0 + runs[k].1)
            * bs) by {
        let j = x / bs;
        vstd::arithmetic::div_mod::lemma_fundamental_div_mod(x, bs);
        vstd::arithmetic::div_mod::lemma_mod_bound(x, bs);
        assert(0 <= j) by (nonlinear_arith)
            requires x == bs * j + x % bs, 0 <= x % bs < bs, x >= 0, bs >= 1;
        assert(j < m.len()) by (nonlinear_arith)
            requires x == bs * j + x % bs, 0 <= x % bs < bs, x < m.len() * bs, bs >= 1;
        if m[j] == -1 {
            let k = choose|k: int|
                0 <= k < runs.len() && (#[trigger] runs[k]).0 <= j < runs[k].0 + runs[k].1;
            assert(runs[k].0 * bs <= x && x < (runs[k].0 + runs[k].1) * bs)
                by (nonlinear_arith)
                requires runs[k].0 <= j, j + 1 <= runs[k].0 + runs[k].1, x == bs * j + x % bs,
                    0 <= x % bs < bs, bs >= 1;
        }
        if exists|k: int|
            0 <= k < runs.len() && (#[trigger] runs[k]).0 * bs <= x < (runs[k].0 + runs[k].1)
                * bs {
            let k = choose|k: int|
                0 <= k < runs.len() && (#[trigger] runs[k]).0 * bs <= x < (runs[k].0
                    + runs[k].1) * bs;
            assert(runs[k].0 <= j && j < runs[k].0 + runs[k].1) by (nonlinear_arith)
                requires runs[k].0 * bs <= x, x < (runs[k].0 + runs[k].1) * bs, x == bs * j
                    + x % bs, 0 <= x % bs < bs, bs >= 1;
            assert(m[j] == -1);
        }
    }
}


/// An index built from a checksum body whose records carry the target's own
/// block checksums is an exact record of all blocks: one entry per block, in
/// the right bucket, holding that block's checksums.
#[verifier::rlimit(100)]
#[verifier::spinoff_prover]
pub proof fn lemma_table_after_residual(body: Seq<u8>, d: Seq<u8>, rbn: int, sb: int, bsz: int,
    m: int, size: int, bs: int, rb: u32, ssl: int)
    requires
        size >= 1,
        0 <= m <= 0x1_0000_0000,
        forall|k: int|
            0 <= k < m ==> (#[trigger] crate::meta_file::block_record(body, rbn, sb, bsz,
                k)).weak == weak_of(d, bs, rb, k),
        forall|k: int|
            0 <= k < m ==> (#[trigger] crate::meta_file::block_record(body, rbn, sb, bsz,
                k)).strong == strong_of(d, bs, ssl, k),
    ensures
        residual_tbl(
            crate::meta_file::table_after(body, rbn, sb, bsz, m, size),
            d,
            bs,
            rb,
            ssl,
            0,
            m,
        ),
    decreases (if m > 0 { m } else { 0 }),
{
    reveal(residual_tbl);
    let tbl = crate::meta_file::table_after(body, rbn, sb, bsz, m, size);
    crate::meta_file::lemma_table_after_session(body, rbn, sb, bsz, m, size);
    if m <= 0 {
        assert(tbl =~= crate::meta_file::empty_table(size));
    } else {
        lemma_table_after_residual(body, d, rbn, sb, bsz, m - 1, size, bs, rb, ssl);
        let prev = crate::meta_file::table_after(body, rbn, sb, bsz, m - 1, size);
        crate::meta_file::lemma_table_after_session(body, rbn, sb, bsz, m - 1, size);
        let rec = crate::meta_file::block_record(body, rbn, sb, bsz, m - 1);
        assert(rec.weak == weak_of(d, bs, rb, m - 1));
        assert(rec.seq == m - 1);
        let bi = bucket_of(rec.weak, size);
        vstd::arithmetic::div_mod::lemma_mod_bound(
            crate::util::checksumpair::pair_hash(rec.weak) as int,
            size,
        );
        assert(tbl == prev.update(bi, prev[bi].push(rec)));
        assert forall|b: int, e: int|
            0 <= b < tbl.len() && 0 <= e < tbl[b].len() implies {
            let s = (#[trigger] tbl[b][e]).seq as int;
            &&& 0 <= s < m
            &&& tbl[b][e].weak == weak_of(d, bs, rb, s)
            &&& tbl[b][e].strong == strong_of(d, bs, ssl, s)
            &&& b == bucket_of(weak_of(d, bs, rb, s), tbl.len() as int)
        } by {
            if b == bi && e == prev[bi].len() {
                assert(tbl[b][e] == rec);
            } else {
                assert(tbl[b][e] == prev[b][e]);
            }
        }
        assert forall|b: int, e1: int, e2: int|
            0 <= b < tbl.len() && 0 <= e1 < e2 < tbl[b].len() implies (
        #[trigger] tbl[b][e1]).seq < (#[trigger] tbl[b][e2]).seq by {
            if b == bi && e2 == prev[bi].len() {
                assert(tbl[b][e2] == rec);
                assert(tbl[b][e1] == prev[b][e1]);
                assert(prev[b][e1].seq < m - 1);
            } else {
                assert(tbl[b][e1] == prev[b][e1]);
                assert(tbl[b][e2] == prev[b][e2]);
            }
        }
        assert forall|k: int| 0 <= k < m implies #[trigger] has_block_entry(tbl, d, bs, rb,
            ssl, k) by {
            if k == m - 1 {
                assert(tbl[bi][prev[bi].len() as int] == rec);
                assert(bi == bucket_of(weak_of(d, bs, rb, k), tbl.len() as int));
            } else {
                assert(has_block_entry(prev, d, bs, rb, ssl, k));
                let b2 = bucket_of(weak_of(d, bs, rb, k), prev.len() as int);
                let e2 = choose|e2: int|
                    0 <= e2 < prev[b2].len() && (#[trigger] prev[b2][e2]).seq == k;
                assert(tbl[b2][e2].seq == k);
                assert(b2 == bucket_of(weak_of(d, bs, rb, k), tbl.len() as int));
            }
        }
    }
}

/// One scan state: the block map, the remaining index contents, and the
/// offset of the most recent successful match.
pub ghost struct ScanSt {
    pub map: Seq<i64>,
    pub tbl: Seq<Seq<PairV>>,
    pub last: int,
}

/// The exact probe at scan position `pos` with canonical weak checksum `w`
/// and strong checksum `s`: the first index entry equal by `(weak, strong)`
/// claims `pos` for its block and leaves the index; a miss changes nothing.
pub open spec fn exact_probe(st: ScanSt, w: u32, s: Seq<u8>, pos: int) -> ScanSt {
    let bi = bucket_of(w, st.tbl.len() as int);
    let fi = first_match_idx(st.tbl[bi], w, s);
    if fi >= 0 {
        let p = st.tbl[bi][fi];
        ScanSt {
            map: st.map.update(p.seq as int, pos as i64),
            tbl: st.tbl.update(bi, st.tbl[bi].remove(fi)),
            last: pos,
        }
    } else {
        st
    }
}

/// What the scan does at position `pos`: probes only at the start and at
/// least one full block past the last match; a weak hit is confirmed against
/// the strong checksum of the window before it can claim a block.
#[verifier::opaque]
pub open spec fn scan_at(st: ScanSt, d: Seq<u8>, pos: int, bs: int, rb: u32, ssl: int) -> ScanSt {
    let wv = canonical_weak(rsum_value(window(d, pos, bs)), rb);
    if pos == 0 || pos >= st.last + bs {
        let bi = bucket_of(wv, st.tbl.len() as int);
        if first_weak_idx(st.tbl[bi], wv) >= 0 {
            exact_probe(st, wv, md4_digest(window(d, pos, bs)).subrange(0, ssl), pos)
        } else {
            st
        }
    } else {
        st
    }
}

/// The scan state after the windows starting at positions `0 .. n` have been
/// processed in order.
pub open spec fn scan_upto(st0: ScanSt, d: Seq<u8>, n: int, bs: int, rb: u32, ssl: int) -> ScanSt
    decreases (if n > 0 { n } else { 0 }),
{
    if n <= 0 {
        st0
    } else {
        scan_at(scan_upto(st0, d, n - 1, bs, rb, ssl), d, n - 1, bs, rb, ssl)
    }
}

/// Sliding the window one byte forward drops its oldest byte and appends the
/// next byte of the data.
proof fn lemma_window_slide(d: Seq<u8>, pos: int, bs: int)
    requires
        pos >= 1,
        bs >= 1,
    ensures
        window(d, pos - 1, bs).drop_first() + seq![win_byte(d, pos - 1 + bs)] =~= window(
            d,
            pos,
            bs,
        ),
{
}

/// The padded window `[pos, pos + bs)` of the data, as a vector.
fn window_vec(data: &Vec<u8>, pos: usize, bs: usize) -> (r: Vec<u8>)
    requires
        pos + bs <= usize::MAX,
    ensures
        r@ == window(data@, pos as int, bs as int),
        r@.len() == bs,
{
    let n = data.len();
    let mut buf: Vec<u8> = Vec::new();
    let mut j: usize = 0;
    while j < bs
        invariant
            j <= bs,
            pos + bs <= usize::MAX,
            n == data@.len(),
            buf@.len() == j,
            forall|k: int| 0 <= k < j ==> buf@[k] == win_byte(data@, pos + k),
        decreases bs - j,
    {
        let idx = pos + j;
        let b = if idx < n {
            data[idx]
        } else {
            0
        };
        buf.push(b);
        j += 1;
    }
    proof {
        assert(buf@ =~= window(data@, pos as int, bs as int));
    }
    buf
}

/// The checksum generator is configured for this session and its rolling
/// window sits at `pos`.
#[verifier::opaque]
pub open spec fn gen_ready(gen: Generator, d: Seq<u8>, pos: int, bs: int, ssl: int) -> bool {
    &&& gen.config.block_length == bs
    &&& gen.config.strong_sum_length == ssl
    &&& gen.config.weak_sum.shape_wf()
    &&& gen.config.weak_sum.spec_block_length() == bs
    &&& gen.config.weak_sum.sum_ok()
    &&& gen.config.weak_sum.window_of() == window(d, pos, bs)
}

/// Slides the rolling checksum to the window at `pos` and returns its value.
fn roll_window(gen: &mut Generator, data: &Vec<u8>, pos: usize, bs: usize, ssl: usize) -> (r:
    u32)
    requires
        pos >= 1,
        pos + bs <= usize::MAX,
        bs >= 1,
        gen_ready(*old(gen), data@, pos - 1, bs as int, ssl as int),
    ensures
        gen_ready(*final(gen), data@, pos as int, bs as int, ssl as int),
        r == rsum_value(window(data@, pos as int, bs as int)),
{
    proof {
        reveal(gen_ready);
    }
    let bs = gen.config.block_length;
    let n = data.len();
    let idx = pos + bs - 1;
    let new_byte = if idx < n {
        data[idx]
    } else {
        0
    };
    proof {
        assert(new_byte == win_byte(data@, pos + bs - 1));
    }
    let r = gen.generate_roll_sum(new_byte);
    proof {
        lemma_window_slide(data@, pos as int, bs as int);
        assert(gen.config.weak_sum.window_of() =~= window(data@, pos as int, bs as int));
    }
    r
}


/// The canonical weak checksum of the target's block `k`, as the scan
/// computes it over the padded window at `k * bs`.
#[verifier::opaque]
pub open spec fn weak_of(d: Seq<u8>, bs: int, rb: u32, k: int) -> u32 {
    canonical_weak(rsum_value(window(d, k * bs, bs)), rb)
}

/// The truncated strong checksum of the target's block `k`.
#[verifier::opaque]
pub open spec fn strong_of(d: Seq<u8>, bs: int, ssl: int, k: int) -> Seq<u8> {
    md4_digest(window(d, k * bs, bs)).subrange(0, ssl)
}

/// The index still holds an entry for block `k`, in the bucket that block's
/// weak checksum selects.
pub open spec fn has_block_entry(tbl: Seq<Seq<PairV>>, d: Seq<u8>, bs: int, rb: u32, ssl: int,
    k: int) -> bool {
    exists|e: int|
        0 <= e < tbl[bucket_of(weak_of(d, bs, rb, k), tbl.len() as int)].len() && (
        #[trigger] tbl[bucket_of(weak_of(d, bs, rb, k), tbl.len() as int)][e]).seq == k
}

/// The index holds exactly one entry per block `c .. n` of the data, each
/// carrying that block's checksums and sitting in the bucket its weak
/// checksum selects.
#[verifier::opaque]
pub open spec fn residual_tbl(tbl: Seq<Seq<PairV>>, d: Seq<u8>, bs: int, rb: u32, ssl: int,
    c: int, n: int) -> bool {
    &&& forall|b: int, e: int|
        0 <= b < tbl.len() && 0 <= e < tbl[b].len() ==> {
            let s = (#[trigger] tbl[b][e]).seq as int;
            &&& c <= s < n
            &&& tbl[b][e].weak == weak_of(d, bs, rb, s)
            &&& tbl[b][e].strong == strong_of(d, bs, ssl, s)
            &&& b == bucket_of(weak_of(d, bs, rb, s), tbl.len() as int)
        }
    &&& forall|k: int| c <= k < n ==> #[trigger] has_block_entry(tbl, d, bs, rb, ssl, k)
    &&& forall|b: int, e1: int, e2: int|
        0 <= b < tbl.len() && 0 <= e1 < e2 < tbl[b].len() ==> (#[trigger] tbl[b][e1]).seq < (
        #[trigger] tbl[b][e2]).seq
}


proof fn lemma_ceil_mul(k: int, bs: int, r: int)
    requires
        bs >= 1,
        k >= 0,
        0 <= r < bs,
    ensures
        (k * bs + r) / bs == k,
        (k * bs + r) % bs == r,
        ceil_div(k * bs + r, bs) == k + if r > 0 {
            1int
        } else {
            0int
        },
{
    assert(k * bs + r == k * bs + r) by (nonlinear_arith);
    assert(k * bs >= 0) by (nonlinear_arith)
        requires k >= 0, bs >= 1;
    vstd::arithmetic::div_mod::lemma_fundamental_div_mod_converse(k * bs + r, bs, k, r);
    lemma_ceil_div(k * bs + r, bs);
}

proof fn lemma_unmatched_count_none(m: Seq<i64>)
    requires
        forall|j: int| 0 <= j < m.len() ==> m[j] != -1,
    ensures
        unmatched_count(m) == 0,
    decreases m.len(),
{
    if m.len() > 0 {
        assert(forall|j: int| 0 <= j < m.drop_last().len() ==> m.drop_last()[j] != -1);
        lemma_unmatched_count_none(m.drop_last());
    }
}


/// Removing one entry keeps the index entries' block numbers in range and
/// pairwise distinct.
#[verifier::rlimit(100)]
#[verifier::spinoff_prover]
proof fn lemma_session_remove(tbl: Seq<Seq<PairV>>, n: int, bi: int, fi: int)
    requires
        tbl_session(tbl, n),
        0 <= bi < tbl.len(),
        0 <= fi < tbl[bi].len(),
    ensures
        tbl_session(tbl.update(bi, tbl[bi].remove(fi)), n),
{
    reveal(tbl_session);
    let tbl2 = tbl.update(bi, tbl[bi].remove(fi));
    tbl[bi].remove_ensures(fi);
    assert forall|b: int, e: int|
        0 <= b < tbl2.len() && 0 <= e < tbl2[b].len() implies 0 <= (#[trigger] tbl2[b][e]).seq
        < n by {
        let e2 = if b == bi && e >= fi {
            e + 1
        } else {
            e
        };
        assert(tbl2[b][e] == tbl[b][e2]);
    }
    assert forall|b1: int, k1: int, b2: int, k2: int|
        0 <= b1 < tbl2.len() && 0 <= k1 < tbl2[b1].len() && 0 <= b2 < tbl2.len() && 0 <= k2
            < tbl2[b2].len() && (b1 != b2 || k1 != k2) implies (#[trigger] tbl2[b1][k1]).seq
        != (#[trigger] tbl2[b2][k2]).seq by {
        let j1 = if b1 == bi && k1 >= fi {
            k1 + 1
        } else {
            k1
        };
        let j2 = if b2 == bi && k2 >= fi {
            k2 + 1
        } else {
            k2
        };
        assert(tbl2[b1][k1] == tbl[b1][j1]);
        assert(tbl2[b2][k2] == tbl[b2][j2]);
        assert(b1 != b2 || j1 != j2);
    }
}

/// Removing block `k`'s entry keeps the index an exact record of the
/// remaining blocks `k + 1 .. n`.
#[verifier::rlimit(100)]
#[verifier::spinoff_prover]
proof fn lemma_residual_step(tbl: Seq<Seq<PairV>>, d: Seq<u8>, bs: int, rb: u32, ssl: int,
    n: int, k: int, bi: int, fi: int)
    requires
        tbl_session(tbl, n),
        residual_tbl(tbl, d, bs, rb, ssl, k, n),
        0 <= bi < tbl.len(),
        0 <= fi < tbl[bi].len(),
        tbl[bi][fi].seq == k,
        0 <= k < n,
    ensures
        ({
            let tbl2 = tbl.update(bi, tbl[bi].remove(fi));
            &&& tbl_session(tbl2, n)
            &&& residual_tbl(tbl2, d, bs, rb, ssl, k + 1, n)
            &&& tbl2.len() == tbl.len()
        }),
{
    reveal(tbl_session);
    reveal(residual_tbl);
    let tbl2 = tbl.update(bi, tbl[bi].remove(fi));
    let size = tbl.len() as int;
    tbl[bi].remove_ensures(fi);
    lemma_session_remove(tbl, n, bi, fi);
    assert forall|b: int, e: int|
        0 <= b < tbl2.len() && 0 <= e < tbl2[b].len() implies {
        let s = (#[trigger] tbl2[b][e]).seq as int;
        &&& k + 1 <= s < n
        &&& tbl2[b][e].weak == weak_of(d, bs, rb, s)
        &&& tbl2[b][e].strong == strong_of(d, bs, ssl, s)
        &&& b == bucket_of(weak_of(d, bs, rb, s), tbl2.len() as int)
    } by {
        assert(tbl2.len() == tbl.len());
        let e2 = if b == bi && e >= fi {
            e + 1
        } else {
            e
        };
        assert(tbl2[b][e] == tbl[b][e2]);
        assert((b, e2) != (bi, fi) ==> tbl[b][e2].seq != tbl[bi][fi].seq);
    }
    assert forall|b: int, e1: int, e2: int|
        0 <= b < tbl2.len() && 0 <= e1 < e2 < tbl2[b].len() implies (#[trigger] tbl2[b][e1]).seq
        < (#[trigger] tbl2[b][e2]).seq by {
        let j1 = if b == bi && e1 >= fi {
            e1 + 1
        } else {
            e1
        };
        let j2 = if b == bi && e2 >= fi {
            e2 + 1
        } else {
            e2
        };
        assert(tbl2[b][e1] == tbl[b][j1]);
        assert(tbl2[b][e2] == tbl[b][j2]);
        assert(j1 < j2);
    }
    assert forall|k2: int| k + 1 <= k2 < n implies #[trigger] has_block_entry(tbl2, d, bs, rb,
        ssl, k2) by {
        assert(has_block_entry(tbl, d, bs, rb, ssl, k2));
        assert(tbl2.len() == tbl.len());
        let b2 = bucket_of(weak_of(d, bs, rb, k2), tbl2.len() as int);
        assert(b2 == bucket_of(weak_of(d, bs, rb, k2), tbl.len() as int));
        let e2 = choose|e2: int|
            0 <= e2 < tbl[b2].len() && (#[trigger] tbl[b2][e2]).seq == k2;
        if b2 == bi {
            assert(e2 != fi);
            if e2 < fi {
                assert(tbl2[b2][e2].seq == k2);
            } else {
                assert(tbl2[b2][e2 - 1] == tbl[b2][e2]);
            }
        } else {
            assert(tbl2[b2][e2].seq == k2);
        }
    }
    assert(residual_tbl(tbl2, d, bs, rb, ssl, k + 1, n));
}

/// At a block boundary the probe gate is open, the weak and strong probes
/// both hit the entry of exactly that block, and the block is claimed at
/// its own offset.
#[verifier::rlimit(100)]
#[verifier::spinoff_prover]
proof fn lemma_identical_boundary(st_prev: ScanSt, d: Seq<u8>, bs: int, rb: u32, ssl: int,
    n: int, k: int)
    requires
        bs >= 1,
        0 <= k < n,
        st_prev.map.len() == n,
        forall|j: int|
            0 <= j < n ==> st_prev.map[j] == if j < k {
                (j * bs) as i64
            } else {
                -1i64
            },
        tbl_session(st_prev.tbl, n),
        residual_tbl(st_prev.tbl, d, bs, rb, ssl, k, n),
        st_prev.last == if k == 0 {
            0int
        } else {
            (k - 1) * bs
        },
        st_prev.tbl.len() >= 1,
        n * bs <= 0x7FFF_FFFF_FFFF_FFFF,
    ensures
        ({
            let st = scan_at(st_prev, d, k * bs, bs, rb, ssl);
            &&& st.map.len() == n
            &&& forall|j: int|
                0 <= j < n ==> st.map[j] == if j < k + 1 {
                    (j * bs) as i64
                } else {
                    -1i64
                }
            &&& tbl_session(st.tbl, n)
            &&& residual_tbl(st.tbl, d, bs, rb, ssl, k + 1, n)
            &&& st.last == k * bs
            &&& st.tbl.len() == st_prev.tbl.len()
        }),
{
    reveal(scan_at);
    reveal(residual_tbl);
    let p = k * bs;
    let st = scan_at(st_prev, d, p, bs, rb, ssl);
    let wv = canonical_weak(rsum_value(window(d, p, bs)), rb);
    assert(0 <= k * bs && k * bs <= n * bs) by (nonlinear_arith)
        requires 0 <= k <= n, bs >= 1;
    assert(wv == weak_of(d, bs, rb, k)) by {
        reveal(weak_of);
    }
    let sv = md4_digest(window(d, p, bs)).subrange(0, ssl);
    assert(sv == strong_of(d, bs, ssl, k)) by {
        reveal(strong_of);
    }
    assert(p == 0 || p >= st_prev.last + bs) by {
        if k > 0 {
            assert(st_prev.last == (k - 1) * bs);
            assert((k - 1) * bs + bs == k * bs) by (nonlinear_arith);
        }
    }
    let size = st_prev.tbl.len() as int;
    let bi = bucket_of(wv, size);
    let bkt = st_prev.tbl[bi];
    assert(has_block_entry(st_prev.tbl, d, bs, rb, ssl, k));
    assert(exists|e: int| 0 <= e < bkt.len() && (#[trigger] bkt[e]).seq == k);
    let e0 = choose|e: int| 0 <= e < bkt.len() && (#[trigger] bkt[e]).seq == k;
    assert(bkt[e0].weak == wv && bkt[e0].strong == sv);
    lemma_first_weak_idx(bkt, wv);
    assert(first_weak_idx(bkt, wv) >= 0) by {
        if first_weak_idx(bkt, wv) == -1 {
            assert(bkt[e0].weak != wv);
        }
    }
    lemma_first_match_idx(bkt, wv, sv);
    let fi = first_match_idx(bkt, wv, sv);
    assert(fi >= 0) by {
        if fi == -1 {
            assert(!(bkt[e0].weak == wv && bkt[e0].strong == sv));
        }
    }
    let hit = bkt[fi];
    assert(hit.weak == wv && hit.strong == sv);
    let s_hit = hit.seq as int;
    // entries sit in ascending block order, so the first match is block k's
    // own entry: any earlier entry would name an evicted block
    assert(s_hit == k) by {
        assert(fi <= e0) by {
            if e0 < fi {
                assert(!(bkt[e0].weak == wv && bkt[e0].strong == sv));
            }
        }
        if fi < e0 {
            assert(bkt[fi].seq < bkt[e0].seq);
            assert(k <= s_hit < n);
        }
    }
    assert(st.map == st_prev.map.update(k, p as i64));
    assert(st.tbl == st_prev.tbl.update(bi, bkt.remove(fi)));
    assert(st.last == p);
    lemma_residual_step(st_prev.tbl, d, bs, rb, ssl, n, k, bi, fi);
    assert forall|j: int| 0 <= j < n implies st.map[j] == (if j < k + 1 {
        (j * bs) as i64
    } else {
        -1i64
    }) by {
        if j != k {
            assert(st.map[j] == st_prev.map[j]);
        }
    }
}

/// After the scan has processed positions `0 .. q` of a candidate identical
/// to the target, the first `ceil(q / blocksize)` blocks are matched at
/// their own offsets, the others are still unmatched and still in the index,
/// and the last match sits one block before the next probe.
#[verifier::rlimit(100)]
#[verifier::spinoff_prover]
proof fn lemma_identical_upto(st0: ScanSt, d: Seq<u8>, bs: int, rb: u32, ssl: int, n: int,
    q: int)
    requires
        bs >= 1,
        n >= 1,
        st0.map.len() == n,
        forall|j: int| 0 <= j < n ==> st0.map[j] == -1,
        st0.last == 0,
        st0.tbl.len() >= 1,
        tbl_session(st0.tbl, n),
        residual_tbl(st0.tbl, d, bs, rb, ssl, 0, n),
        (n - 1) * bs < d.len() <= n * bs,
        n * bs <= 0x7FFF_FFFF_FFFF_FFFF,
        0 <= q <= d.len(),
    ensures
        ({
            let c = ceil_div(q, bs);
            let st = scan_upto(st0, d, q, bs, rb, ssl);
            &&& st.map.len() == n
            &&& forall|j: int|
                0 <= j < n ==> st.map[j] == if j < c {
                    (j * bs) as i64
                } else {
                    -1i64
                }
            &&& tbl_session(st.tbl, n)
            &&& residual_tbl(st.tbl, d, bs, rb, ssl, c, n)
            &&& st.last == if c == 0 {
                0int
            } else {
                (c - 1) * bs
            }
            &&& st.tbl.len() == st0.tbl.len()
        }),
    decreases q,
{
    if q == 0 {
        lemma_ceil_mul(0, bs, 0);
        assert(ceil_div(0, bs) == 0);
    } else {
        lemma_identical_upto(st0, d, bs, rb, ssl, n, q - 1);
        let p = q - 1;
        let k = p / bs;
        let r = p % bs;
        vstd::arithmetic::div_mod::lemma_fundamental_div_mod(p, bs);
        vstd::arithmetic::div_mod::lemma_mod_bound(p, bs);
        assert(k >= 0) by (nonlinear_arith)
            requires p == bs * k + r, 0 <= r < bs, p >= 0, bs >= 1;
        assert(p == k * bs + r) by (nonlinear_arith)
            requires p == bs * k + r;
        lemma_ceil_mul(k, bs, r);
        assert(k < n) by (nonlinear_arith)
            requires k * bs + r < n * bs, 0 <= r, bs >= 1, k >= 0;
        let c_prev = ceil_div(p, bs);
        let st_prev = scan_upto(st0, d, p, bs, rb, ssl);
        let st = scan_upto(st0, d, q, bs, rb, ssl);
        assert(st == scan_at(st_prev, d, p, bs, rb, ssl));
        if r == 0 {
            // a block boundary: block k is probed and claimed
            assert(c_prev == k);
            assert(p == k * bs);
            lemma_identical_boundary(st_prev, d, bs, rb, ssl, n, k);
            assert(ceil_div(q, bs) == k + 1) by {
                if bs > 1 {
                    lemma_ceil_mul(k, bs, 1);
                } else {
                    assert(q == (k + 1) * bs + 0) by (nonlinear_arith)
                        requires q == k * bs + 1, bs == 1;
                    lemma_ceil_mul(k + 1, bs, 0);
                }
            }
        } else {
            // inside a claimed block: the probe gate is closed
            assert(c_prev == k + 1);
            assert(st_prev.last == k * bs);
            assert(p < st_prev.last + bs) by (nonlinear_arith)
                requires p == k * bs + r, r < bs, st_prev.last == k * bs;
            assert(p != 0);
            assert(st == st_prev) by {
                reveal(scan_at);
            }
            assert(ceil_div(q, bs) == c_prev) by {
                if r + 1 < bs {
                    lemma_ceil_mul(k, bs, r + 1);
                } else {
                    lemma_ceil_mul(k + 1, bs, 0);
                    assert(q == (k + 1) * bs + 0) by (nonlinear_arith)
                        requires q == k * bs + r + 1, r + 1 == bs;
                }
            }
        }
    }
}

/// A candidate identical to the target matches every block at its own
/// offset and completes at one hundred percent, provided the index holds
/// each block's checksums of the padded target windows, as a manifest of
/// the target yields them.
pub proof fn lemma_identical_candidate(st0: ScanSt, d: Seq<u8>, bs: int, rb: u32, ssl: int,
    n: int)
    requires
        bs >= 1,
        n >= 1,
        st0.map.len() == n,
        forall|j: int| 0 <= j < n ==> st0.map[j] == -1,
        st0.last == 0,
        st0.tbl.len() >= 1,
        tbl_session(st0.tbl, n),
        residual_tbl(st0.tbl, d, bs, rb, ssl, 0, n),
        (n - 1) * bs < d.len() <= n * bs,
        n * bs <= 0x7FFF_FFFF_FFFF_FFFF,
    ensures
        ({
            let fin = scan_upto(st0, d, d.len() as int, bs, rb, ssl);
            &&& forall|j: int| 0 <= j < n ==> fin.map[j] == (j * bs) as i64
            &&& unmatched_count(fin.map) == 0
            &&& completion_percent(fin.map) == 100
        }),
{
    let q = d.len() as int;
    lemma_identical_upto(st0, d, bs, rb, ssl, n, q);
    let fin = scan_upto(st0, d, q, bs, rb, ssl);
    assert(ceil_div(q, bs) == n) by {
        let r = q - (n - 1) * bs;
        if r < bs {
            lemma_ceil_mul(n - 1, bs, r);
        } else {
            assert(q == n * bs) by (nonlinear_arith)
                requires q == (n - 1) * bs + r, r >= bs, q <= n * bs;
            lemma_ceil_mul(n, bs, 0);
        }
    }
    assert forall|j: int| 0 <= j < n implies fin.map[j] != -1 by {
        assert(fin.map[j] == (j * bs) as i64);
        assert(0 <= j * bs <= n * bs) by (nonlinear_arith)
            requires 0 <= j, j <= n, bs >= 1;
    }
    lemma_unmatched_count_none(fin.map);
    assert(completion_percent(fin.map) == (n * 100) / n);
    assert((n * 100) / n == 100) by {
        vstd::arithmetic::div_mod::lemma_div_multiples_vanish(100, n);
        assert(n * 100 == 100 * n) by (nonlinear_arith);
        assert(n * 100 == n * 100);
    }
}

/// Scans the candidate file against the manifest's block index and derives
/// the missing ranges and completion statistics.
pub struct FileMaker {
    pub metafile: MetaFile,
    pub hashtable: ChainingHash,
    pub file_map: Vec<i64>,
    pub file_offset: i64,
}

impl FileMaker {
    /// A matching session fit to run: a well-formed manifest, a block map of
    /// exactly `block_num` slots, and an index whose entries name distinct
    /// unmatched blocks.
    pub open spec fn wf(self) -> bool {
        &&& self.metafile.wf()
        &&& self.hashtable.wf()
        &&& self.hashtable.array_size >= 16
        &&& self.file_map@.len() == self.metafile.block_num
        &&& tbl_session(self.hashtable@, self.file_map@.len() as int)
        &&& claim_inv(self.hashtable@, self.file_map@)
    }

    /// Starts a session: the manifest and its index are copied, and every
    /// block starts unmatched.
    pub fn new(metafile: &MetaFile) -> (r: FileMaker)
        requires
            metafile.wf(),
            tbl_session(metafile.hashtable@, metafile.block_num as int),
        ensures
            r.wf(),
            r.metafile.blocksize == metafile.blocksize,
            r.metafile.length == metafile.length,
            r.metafile.seq_num == metafile.seq_num,
            r.metafile.rsum_bytes == metafile.rsum_bytes,
            r.metafile.checksum_bytes == metafile.checksum_bytes,
            r.metafile.block_num == metafile.block_num,
            r.hashtable@ == metafile.hashtable@,
            r.file_map@.len() == metafile.block_num,
            forall|i: int| 0 <= i < metafile.block_num ==> r.file_map@[i] == -1,
            r.file_offset == 0,
    {
        let n = metafile.block_num as usize;
        let mut map: Vec<i64> = Vec::new();
        let mut i: usize = 0;
        while i < n
            invariant
                i <= n,
                map@.len() == i,
                forall|k: int| 0 <= k < i ==> map@[k] == -1,
            decreases n - i,
        {
            map.push(-1);
            i += 1;
        }
        let r = FileMaker {
            metafile: metafile.clone(),
            hashtable: metafile.hashtable.clone(),
            file_map: map,
            file_offset: 0,
        };
        proof {
            reveal(tbl_session);
            reveal(claim_inv);
            assert(r.hashtable@ == metafile.hashtable@);
            assert(claim_inv(r.hashtable@, r.file_map@));
        }
        r
    }

    /// A read-only view of the block map: one slot per target block, holding
    /// the candidate byte offset it was found at, or `-1`.
    pub fn block_map(&self) -> (r: &Vec<i64>)
        ensures
            r@ == self.file_map@,
    {
        &self.file_map
    }

    /// The byte length of block `i` of a target of `length` bytes cut into
    /// blocks of `block_size`.
    fn calc_block_length(i: usize, block_size: usize, length: usize) -> (r: usize)
        requires
            1 <= block_size <= 0xFFFF_FFFF,
            i <= 0x4000_0000,
            i * block_size < length,
            length <= 0x4000_0000_0000_0000,
        ensures
            r == spec_block_length(i as int, block_size as int, length as int),
            1 <= r <= block_size,
    {
        proof {
            assert((i + 1) * block_size <= 0x4000_0001int * 0xFFFF_FFFFint) by (nonlinear_arith)
                requires 0 <= i <= 0x4000_0000, 0 <= block_size <= 0xFFFF_FFFF;
            assert(i * block_size + block_size == (i + 1) * block_size) by (nonlinear_arith);
            assert(i * block_size >= 0) by (nonlinear_arith)
                requires i >= 0, block_size >= 0;
        }
        let next_end: u64 = (i as u64 + 1) * (block_size as u64);
        if next_end < length as u64 {
            block_size
        } else {
            Self::calc_block_length_b(i, block_size, length)
        }
    }

    /// The final-block case: the block size less what runs past the target
    /// length.
    fn calc_block_length_b(i: usize, block_size: usize, length: usize) -> (r: usize)
        requires
            1 <= block_size <= 0xFFFF_FFFF,
            i <= 0x4000_0000,
            i * block_size < length,
            length <= 0x4000_0000_0000_0000,
            (i + 1) * block_size >= length,
        ensures
            r == length - i * block_size,
            1 <= r <= block_size,
    {
        proof {
            assert(i * block_size + block_size == (i + 1) * block_size) by (nonlinear_arith);
            assert(0 <= i * block_size <= 0x4000_0000int * 0xFFFF_FFFFint) by (nonlinear_arith)
                requires 0 <= i <= 0x4000_0000, 0 <= block_size <= 0xFFFF_FFFF;
        }
        let used: u64 = (i as u64) * (block_size as u64);
        let r: u64 = ((block_size as u64) + ((length as u64) - used)) - (block_size as u64);
        r as usize
    }

    /// Reduces a live weak checksum to its canonical 32-bit form under the
    /// manifest's declared weak-checksum width.
    pub fn update_weak_sum(&mut self, weak: u32) -> (r: u32)
        ensures
            *final(self) == *old(self),
            r == canonical_weak(weak, old(self).metafile.rsum_bytes),
    {
        proof {
            vstd::arithmetic::div_mod::lemma_div_is_ordered(
                weak as int,
                0xFFFF_FFFF,
                0x1000000,
            );
            vstd::arithmetic::div_mod::lemma_div_is_ordered(weak as int, 0xFFFF_FFFF, 0x10000);
            vstd::arithmetic::div_mod::lemma_div_is_ordered(weak as int, 0xFFFF_FFFF, 0x100);
        }
        let w0 = weak / 0x1000000;
        let w1 = (weak / 0x10000) % 0x100;
        let w2 = (weak / 0x100) % 0x100;
        let w3 = weak % 0x100;
        let rb = self.metafile.rsum_bytes;
        if rb == 2 {
            w0 * 0x100 + w1
        } else if rb == 3 {
            w1 * 0x1000000 + w3 * 0x100 + w0
        } else if rb == 4 {
            weak
        } else {
            0
        }
    }

    /// Runs the completion pass: under hash-length mode 2 the orphan filter
    /// reverts isolated matches, under any other mode the map is untouched;
    /// then the completion percentage of the resulting map is returned.
    pub fn match_control(&mut self) -> (r: u32)
        requires
            old(self).file_map@.len() <= 0x4000_0000,
        ensures
            final(self).metafile == old(self).metafile,
            final(self).hashtable == old(self).hashtable,
            final(self).file_offset == old(self).file_offset,
            final(self).file_map@ == orphan_filter(
                old(self).file_map@,
                old(self).metafile.seq_num,
            ),
            old(self).metafile.seq_num != 2 ==> final(self).file_map@ == old(self).file_map@,
            r == completion_percent(final(self).file_map@),
            r <= 100,
    {
        let ghost m0 = self.file_map@;
        let n = self.file_map.len();
        let sq = self.metafile.seq_num;
        let mut missing: usize = 0;
        let mut i: usize = 0;
        while i < n
            invariant
                i <= n,
                n <= 0x4000_0000,
                self.file_map@.len() == n,
                m0.len() == n,
                sq == self.metafile.seq_num,
                self.file_map@ == (if sq == 2 {
                    orphan_pass_upto(m0, i as int)
                } else {
                    m0
                }),
                missing == unmatched_count(self.file_map@.subrange(0, i as int)),
                missing <= i,
                self.metafile == old(self).metafile,
                self.hashtable == old(self).hashtable,
                self.file_offset == old(self).file_offset,
            decreases n - i,
        {
            let ghost before = self.file_map@;
            if sq == 2 {
                if i > 0 && i < n - 1 {
                    if self.file_map[i - 1] == -1 && self.file_map[i] != -1 && self.file_map[i
                        + 1] == -1 {
                        self.file_map.set(i, -1);
                    }
                } else if i == 0 {
                    if n >= 2 && self.file_map[0] != -1 && self.file_map[1] == -1 {
                        self.file_map.set(0, -1);
                    }
                } else if i == n - 1 {
                    if self.file_map[i] != -1 && self.file_map[i - 1] == -1 {
                        self.file_map.set(i, -1);
                    }
                }
                proof {
                    assert(self.file_map@ =~= orphan_step(before, i as int));
                }
            }
            proof {
                assert(self.file_map@.subrange(0, i as int) =~= before.subrange(0, i as int));
                lemma_unmatched_step(self.file_map@, i as int);
            }
            if self.file_map[i] == -1 {
                missing += 1;
            }
            i += 1;
        }
        proof {
            assert(self.file_map@.subrange(0, n as int) =~= self.file_map@);
            lemma_unmatched_count_bound(self.file_map@);
        }
        if n != 0 {
            let matched = n - missing;
            let r64: u64 = ((matched as u64) * 100) / (n as u64);
            proof {
                let fm = self.file_map@;
                assert(matched * 100 <= n * 100) by (nonlinear_arith)
                    requires 0 <= matched <= n;
                vstd::arithmetic::div_mod::lemma_div_is_ordered(
                    matched * 100,
                    n * 100,
                    n as int,
                );
                vstd::arithmetic::div_mod::lemma_div_multiples_vanish(100, n as int);
                assert(n as int * 100 == n as int * 100);
                assert((n as int * 100) / (n as int) == 100) by {
                    assert(n as int * 100 == 100 * n as int) by (nonlinear_arith);
                    vstd::arithmetic::div_mod::lemma_div_multiples_vanish(100, n as int);
                }
            }
            r64 as u32
        } else {
            0
        }
    }

    /// Collects the byte spans of the consecutive unmatched blocks starting
    /// at `index`, at most 100 of them: one `(start, end)` pair per block.
    pub fn range_look_up(&self, index: usize) -> (r: Vec<(i64, i64)>)
        requires
            self.wf(),
        ensures
            r@.len() == run_len_from(self.file_map@, index as int, 100),
            r@.len() == 0 <==> (index >= self.file_map@.len() || self.file_map@[index as int]
                != -1),
            forall|k: int| 0 <= k < r@.len() ==> #[trigger] self.file_map@[index + k] == -1,
            forall|k: int|
                0 <= k < r@.len() ==> r@[k] == (
                    ((index + k) * self.metafile.blocksize) as i64,
                    ((index + k) * self.metafile.blocksize
                        + self.metafile.blocksize) as i64,
                ),
    {
        let ghost m = self.file_map@;
        let bs = self.metafile.blocksize;
        let n = self.file_map.len();
        let mut ranges: Vec<(i64, i64)> = Vec::new();
        if index >= n {
            proof {
                assert(run_len_from(m, index as int, 100) == 0);
            }
            return ranges;
        }
        let mut i = index;
        while i < n && ranges.len() < RANGES && self.file_map[i] == -1
            invariant
                index <= i <= n,
                n == m.len(),
                m == self.file_map@,
                self.wf(),
                bs == self.metafile.blocksize,
                n <= 0x4000_0000,
                ranges@.len() == i - index,
                ranges@.len() <= 100,
                forall|k: int| index <= k < i ==> #[trigger] m[k] == -1,
                forall|k: int|
                    0 <= k < ranges@.len() ==> ranges@[k] == (
                        ((index + k) * bs) as i64,
                        ((index + k) * bs + bs) as i64,
                    ),
            decreases n - i,
        {
            proof {
                assert(0 <= i * bs <= 0x4000_0000int * 0xFFFF_FFFFint) by (nonlinear_arith)
                    requires 0 <= i <= 0x4000_0000, 0 <= bs <= 0xFFFF_FFFF;
            }
            let start: u64 = (i as u64) * (bs as u64);
            ranges.push((start as i64, (start + bs as u64) as i64));
            i += 1;
        }
        proof {
            lemma_run_len_eq(m, index as int, 100, ranges@.len() as int);
        }
        ranges
    }

    /// Every block of a well-formed session starts strictly before the end
    /// of the target.
    proof fn lemma_block_starts(self, j: int)
        requires
            self.wf(),
            0 <= j < self.metafile.block_num,
        ensures
            j * self.metafile.blocksize < self.metafile.length,
            self.metafile.length <= 0x4000_0000_0000_0000,
    {
        let bs = self.metafile.blocksize as int;
        let len = self.metafile.length as int;
        let n = self.metafile.block_num as int;
        lemma_ceil_div(len, bs);
        if len == 0 {
            assert(n == ceil_div(0, bs));
            assert(ceil_div(0, bs) == 0) by {
                vstd::arithmetic::div_mod::lemma_basic_div(bs - 1, bs);
            }
        }
        assert((n - 1) * bs < len);
        assert(j * bs <= (n - 1) * bs) by (nonlinear_arith)
            requires j <= n - 1, bs >= 0;
        assert(n * bs <= 0x4000_0000int * 0xFFFF_FFFFint) by (nonlinear_arith)
            requires 0 <= n <= 0x4000_0000, 0 <= bs <= 0xFFFF_FFFF;
        assert(len <= n * bs);
    }

    /// Walks the block map in block order and emits one missing range per
    /// maximal stretch of unmatched blocks, splitting stretches of more than
    /// 100 blocks. Each range spans whole blocks; its `block_length` is the
    /// true byte length of the last block it covers, and its scan position
    /// starts fresh.
    pub fn file_maker(&self) -> (r: Vec<FilePart>)
        requires
            self.wf(),
        ensures
            ({
                let runs = runs_from(self.file_map@, 0);
                &&& r@.len() == runs.len()
                &&& forall|k: int|
                    0 <= k < runs.len() ==> r@[k] == part_of_run(
                        #[trigger] runs[k],
                        self.metafile.blocksize as int,
                        self.metafile.length as int,
                    )
            }),
    {
        let ghost m = self.file_map@;
        let ghost bsg = self.metafile.blocksize as int;
        let ghost leng = self.metafile.length as int;
        let bs = self.metafile.blocksize;
        let length = self.metafile.length;
        let n = self.file_map.len();
        let mut res: Vec<FilePart> = Vec::new();
        let ghost mut done: Seq<(int, int)> = Seq::empty();
        let mut i: usize = 0;
        proof {
            assert(Seq::empty() + runs_from(m, 0) =~= runs_from(m, 0));
        }
        while i < n
            invariant
                i <= n,
                n == m.len(),
                m == self.file_map@,
                self.wf(),
                bs == self.metafile.blocksize,
                length == self.metafile.length,
                bsg == bs as int,
                leng == length as int,
                n <= 0x4000_0000,
                runs_from(m, 0) == done + runs_from(m, i as int),
                res@.len() == done.len(),
                forall|k: int|
                    0 <= k < done.len() ==> res@[k] == part_of_run(
                        #[trigger] done[k],
                        bsg,
                        leng,
                    ),
            decreases n - i,
        {
            let file_offset = self.file_map[i];
            if file_offset == -1 {
                let range_list = self.range_look_up(i);
                let range = range_list.len();
                let ghost c = run_len_from(m, i as int, 100);
                proof {
                    lemma_run_len(m, i as int + 1, 99);
                    assert(c >= 1);
                    lemma_run_len(m, i as int, 100);
                    assert(i + c <= n);
                    self.lemma_block_starts(i + c - 1);
                }
                let start_offset = range_list[0].0;
                let end_offset = range_list[range - 1].1;
                let block_length = Self::calc_block_length(i + range - 1, bs, length);
                proof {
                    assert((i as int + (c - 1)) * bsg + bsg == (i + c) * bsg)
                        by (nonlinear_arith);
                    assert((i as int + 0) * bsg == i as int * bsg) by (nonlinear_arith);
                    assert(0 <= i * bsg && i as int * bsg <= (i + c) * bsg && (i + c) * bsg
                        <= n as int * bsg) by (nonlinear_arith)
                        requires 0 <= i, 0 <= c, i + c <= n, bsg >= 0;
                    assert(n as int * bsg <= 0x4000_0000int * 0xFFFF_FFFFint)
                        by (nonlinear_arith)
                        requires 0 <= n <= 0x4000_0000, 0 <= bsg <= 0xFFFF_FFFF;
                    assert(range_list@[0] == (((i as int + 0) * bsg) as i64,
                        ((i as int + 0) * bsg + bsg) as i64));
                    assert(range_list@[c - 1] == (((i as int + (c - 1)) * bsg) as i64,
                        ((i as int + (c - 1)) * bsg + bsg) as i64));
                    assert(start_offset == (i as int * bsg) as i64);
                    assert(end_offset == ((i + c) * bsg) as i64);
                }
                let rcount = range_list.len();
                let diff = range - rcount;
                proof {
                    assert(diff == 0);
                    assert(diff * bs == 0) by (nonlinear_arith)
                        requires diff == 0;
                }
                let offset = diff * bs;
                res.push(
                    FilePart {
                        start_offset: start_offset as usize,
                        end_offset: end_offset as usize,
                        block_length,
                        offset,
                    },
                );
                proof {
                    let run = (i as int, c);
                    assert(res@.last() == part_of_run(run, bsg, leng));
                    assert(runs_from(m, i as int) == seq![run] + runs_from(m, i + c));
                    done = done.push(run);
                    assert(done + runs_from(m, i + c) =~= runs_from(m, 0)) by {
                        assert(done.drop_last() + (seq![run] + runs_from(m, i + c))
                            =~= done + runs_from(m, i + c));
                    }
                }
                i += range;
            } else {
                proof {
                    assert(runs_from(m, i as int) == runs_from(m, i + 1));
                }
                i += 1;
            }
        }
        proof {
            assert(runs_from(m, n as int) =~= Seq::<(int, int)>::empty());
            assert(done + runs_from(m, n as int) =~= done);
        }
        res
    }

    /// Probes the index. With an empty strong checksum this is the weak-only
    /// pre-filter and changes nothing. With a strong checksum it is the exact
    /// probe: the first entry equal by `(weak, strong)` claims the current
    /// offset for its block, and the entry leaves the index, so each target
    /// block is claimed by at most one candidate offset; a block once matched
    /// is never re-recorded.
    fn hash_look_up(&mut self, weak_sum: u32, strong_sum: Vec<u8>) -> (r: bool)
        requires
            old(self).wf(),
        ensures
            final(self).wf(),
            final(self).metafile == old(self).metafile,
            final(self).file_offset == old(self).file_offset,
            final(self).hashtable.array_size == old(self).hashtable.array_size,
            final(self).file_map@.len() == old(self).file_map@.len(),
            forall|i: int|
                0 <= i < old(self).file_map@.len() && old(self).file_map@[i] != -1
                    ==> final(self).file_map@[i] == old(self).file_map@[i],
            ({
                let tbl = old(self).hashtable@;
                let bi = bucket_of(weak_sum, old(self).hashtable.array_size as int);
                if strong_sum@.len() == 0 {
                    &&& r == (first_weak_idx(tbl[bi], weak_sum) >= 0)
                    &&& final(self).file_map@ == old(self).file_map@
                    &&& final(self).hashtable@ == tbl
                } else {
                    let fi = first_match_idx(tbl[bi], weak_sum, strong_sum@);
                    if fi >= 0 {
                        let p = tbl[bi][fi];
                        &&& r == true
                        &&& final(self).file_map@ == old(self).file_map@.update(
                            p.seq as int,
                            old(self).file_offset,
                        )
                        &&& final(self).hashtable@ == tbl.update(bi, tbl[bi].remove(fi))
                    } else {
                        &&& r == false
                        &&& final(self).file_map@ == old(self).file_map@
                        &&& final(self).hashtable@ == tbl
                    }
                }
            }),
    {
        let ghost tbl = old(self).hashtable@;
        let ghost n = old(self).file_map@.len() as int;
        let ghost bi = bucket_of(weak_sum, old(self).hashtable.array_size as int);
        if strong_sum.len() == 0 {
            let mut p = ChecksumPair::new();
            p.weak = weak_sum;
            let link = self.hashtable.find(&p);
            link.is_some()
        } else {
            let mut p = ChecksumPair::new();
            p.weak = weak_sum;
            p.strong = crate::util::checksumpair::clone_bytes(&strong_sum);
            let link = self.hashtable.find_match(&p);
            match link {
                Some(link) => {
                    proof {
                        vstd::arithmetic::div_mod::lemma_mod_bound(
                            crate::util::checksumpair::pair_hash(weak_sum) as int,
                            old(self).hashtable.array_size as int,
                        );
                        assert(0 <= bi < tbl.len());
                    }
                    let ghost fi = first_match_idx(tbl[bi], weak_sum, strong_sum@);
                    let ghost pv = tbl[bi][fi];
                    proof {
                        reveal(tbl_session);
                        reveal(claim_inv);
                        lemma_first_match_idx(tbl[bi], weak_sum, strong_sum@);
                        assert(link@ == pv);
                        assert(0 <= pv.seq < n);
                        assert(n <= 0x4000_0000);
                    }
                    let seq = link.seq;
                    self.file_map.set(seq as usize, self.file_offset);
                    let bs64: u64 = self.metafile.blocksize as u64;
                    proof {
                        assert(seq * self.metafile.blocksize <= 0x4000_0000int
                            * 0xFFFF_FFFFint && self.metafile.blocksize * seq
                            <= 0x4000_0000int * 0xFFFF_FFFFint && 0 <= self.metafile.blocksize
                            * seq) by (nonlinear_arith)
                            requires 0 <= seq <= 0x4000_0000, 0
                                <= self.metafile.blocksize <= 0xFFFF_FFFF;
                    }
                    let mut del_p = ChecksumPair::new();
                    del_p.weak = weak_sum;
                    del_p.strong = strong_sum;
                    del_p.offset = bs64 * (seq as u64);
                    del_p.length = self.metafile.blocksize as u32;
                    del_p.seq = seq;
                    self.hashtable.delete(&del_p);
                    proof {
                        self.lemma_claim_step(tbl, old(self).file_map@, bi, fi, n);
                    }
                    true
                },
                None => false,
            }
        }
    }

    /// Removing the claimed entry and recording its block keeps the session
    /// invariants: the remaining entries still name distinct, unmatched
    /// blocks.
    proof fn lemma_claim_step(
        self,
        tbl: Seq<Seq<PairV>>,
        m: Seq<i64>,
        bi: int,
        fi: int,
        n: int,
    )
        requires
            0 <= bi < tbl.len(),
            0 <= fi < tbl[bi].len(),
            tbl_session(tbl, n),
            claim_inv(tbl, m),
            m.len() == n,
            self.hashtable@ == tbl.update(bi, tbl[bi].remove(fi)),
            self.file_map@ == m.update(tbl[bi][fi].seq as int, self.file_offset),
        ensures
            tbl_session(self.hashtable@, n),
            claim_inv(self.hashtable@, self.file_map@),
    {
        reveal(tbl_session);
        reveal(claim_inv);
        let tbl2 = self.hashtable@;
        let m2 = self.file_map@;
        let p = tbl[bi][fi];
        tbl[bi].remove_ensures(fi);
        assert forall|b: int, k: int|
            0 <= b < tbl2.len() && 0 <= k < tbl2[b].len() implies {
            &&& 0 <= (#[trigger] tbl2[b][k]).seq < n
            &&& tbl2[b][k].seq != p.seq
            &&& m2[tbl2[b][k].seq as int] == -1
        } by {
            if b == bi {
                if k < fi {
                    assert(tbl2[b][k] == tbl[bi][k]);
                    assert(tbl[bi][k].seq != tbl[bi][fi].seq);
                } else {
                    assert(tbl2[b][k] == tbl[bi][k + 1]);
                    assert(tbl[bi][k + 1].seq != tbl[bi][fi].seq);
                }
            } else {
                assert(tbl2[b][k] == tbl[b][k]);
                assert(tbl[b][k].seq != tbl[bi][fi].seq);
            }
        }
        assert forall|b1: int, k1: int, b2: int, k2: int|
            0 <= b1 < tbl2.len() && 0 <= k1 < tbl2[b1].len() && 0 <= b2 < tbl2.len() && 0 <= k2
                < tbl2[b2].len() && (b1 != b2 || k1 != k2) implies (#[trigger] tbl2[b1][k1]).seq
            != (#[trigger] tbl2[b2][k2]).seq by {
            let j1 = if b1 == bi && k1 >= fi {
                k1 + 1
            } else {
                k1
            };
            let j2 = if b2 == bi && k2 >= fi {
                k2 + 1
            } else {
                k2
            };
            assert(tbl2[b1][k1] == tbl[b1][j1]);
            assert(tbl2[b2][k2] == tbl[b2][j2]);
            assert(b1 != b2 || j1 != j2);
        }
    }

    /// Scans the candidate bytes with the rolling checksum, one position at
    /// a time: at the start, and from one full block past the last match on,
    /// each window is probed against the index; a weak hit confirmed by the
    /// strong checksum claims the window's start offset for the matched
    /// block. Near end of file the window is padded with zero bytes. The
    /// completion pass then runs, and the completion percentage is returned.
    /// Blocks matched earlier in the scan are never re-recorded.
    #[verifier::rlimit(100)]
    #[verifier::spinoff_prover]
    pub fn map_matcher(&mut self, data: &Vec<u8>) -> (r: u32)
        requires
            old(self).wf(),
            old(self).file_offset == 0,
            data@.len() + old(self).metafile.blocksize <= usize::MAX,
            data@.len() + old(self).metafile.blocksize <= 0x7FFF_FFFF_FFFF_FFFF,
        ensures
            final(self).metafile == old(self).metafile,
            ({
                let st0 = (ScanSt {
                    map: old(self).file_map@,
                    tbl: old(self).hashtable@,
                    last: 0,
                });
                let fin = scan_upto(
                    st0,
                    data@,
                    data@.len() as int,
                    old(self).metafile.blocksize as int,
                    old(self).metafile.rsum_bytes,
                    old(self).metafile.checksum_bytes as int,
                );
                &&& final(self).hashtable@ == fin.tbl
                &&& final(self).file_map@ == orphan_filter(
                    fin.map,
                    old(self).metafile.seq_num,
                )
                &&& r == completion_percent(final(self).file_map@)
                &&& final(self).file_offset == data@.len()
                &&& forall|i: int|
                    0 <= i < old(self).file_map@.len() && old(self).file_map@[i] != -1
                        ==> fin.map[i] == old(self).file_map@[i]
            }),
            r <= 100,
    {
        let ghost d = data@;
        let ghost st0 = ScanSt { map: self.file_map@, tbl: self.hashtable@, last: 0 };
        let ghost rb = self.metafile.rsum_bytes;
        let ghost ssl = self.metafile.checksum_bytes as int;
        let bs = self.metafile.blocksize;
        let file_length = data.len();
        let mut config = Configuration::new();
        config.block_length = bs;
        config.strong_sum_length = self.metafile.checksum_bytes as usize;
        let mut gen = Generator::new(config);
        if file_length == 0 {
            let r = self.match_control();
            return r;
        }
        let ghost mut stg = st0;
        let file_buffer = window_vec(data, 0, bs);
        let weak_sum = gen.generate_weak_sum(&file_buffer, 0);
        proof {
            reveal(gen_ready);
            assert(file_buffer@.subrange(0, bs as int) =~= file_buffer@);
            assert(weak_sum == rsum_value(window(d, 0, bs as int)));
            assert(gen_ready(gen, d, 0, bs as int, self.metafile.checksum_bytes as int));
        }
        let mut last_match: i64 = self.scan_step(data, &mut gen, 0, weak_sum, 0);
        proof {
            stg = scan_at(st0, d, 0, bs as int, rb, ssl);
            assert(scan_upto(st0, d, 0, bs as int, rb, ssl) == st0);
            assert(stg == scan_upto(st0, d, 1, bs as int, rb, ssl));
        }
        self.file_offset = 1;
        let mut pos: usize = 1;
        while pos < file_length
            invariant
                1 <= pos <= file_length,
                file_length == d.len(),
                d == data@,
                file_length + bs <= usize::MAX,
                file_length + bs <= 0x7FFF_FFFF_FFFF_FFFF,
                bs == self.metafile.blocksize,
                bs >= 1,
                rb == self.metafile.rsum_bytes,
                ssl == self.metafile.checksum_bytes as int,
                self.wf(),
                self.metafile == old(self).metafile,
                stg == scan_upto(st0, d, pos as int, bs as int, rb, ssl),
                self.file_map@ == stg.map,
                self.hashtable@ == stg.tbl,
                last_match == stg.last,
                0 <= stg.last <= pos,
                st0 == (ScanSt { map: old(self).file_map@, tbl: old(self).hashtable@, last: 0 }),
                st0.map.len() == self.metafile.block_num as int,
                forall|i: int|
                    0 <= i < st0.map.len() && st0.map[i] != -1 ==> stg.map[i] == st0.map[i],
                gen_ready(gen, d, pos - 1, bs as int, ssl),
            decreases file_length - pos,
        {
            self.file_offset = pos as i64;
            let weak_sum = roll_window(&mut gen, data, pos, bs, self.metafile.checksum_bytes
                as usize);
            let ghost st_prev = stg;
            last_match = self.scan_step(data, &mut gen, pos, weak_sum, last_match);
            proof {
                let st_next = scan_at(st_prev, d, pos as int, bs as int, rb, ssl);
                assert(self.file_map@ == st_next.map);
                assert forall|i: int|
                    0 <= i < st0.map.len() && st0.map[i] != -1 implies st_next.map[i]
                    == st0.map[i] by {
                    assert(st_prev.map[i] == st0.map[i]);
                    assert(st_prev.map[i] != -1);
                    assert(st_prev.map.len() == st0.map.len());
                    assert(self.file_map@[i] == st_prev.map[i]);
                    assert(st_next.map[i] == self.file_map@[i]);
                }
                stg = st_next;
            }
            pos += 1;
        }
        self.file_offset = file_length as i64;
        let r = self.match_control();
        proof {
            assert(stg == scan_upto(st0, d, d.len() as int, bs as int, rb, ssl));
        }
        r
    }

    /// One scan position: probes the index at `pos` when the scan is at the
    /// start or at least one full block past the last match, confirms a weak
    /// hit with the strong checksum of the window, and returns the offset of
    /// the most recent match.
    #[verifier::rlimit(100)]
    #[verifier::spinoff_prover]
    fn scan_step(
        &mut self,
        data: &Vec<u8>,
        gen: &mut Generator,
        pos: usize,
        weak_sum: u32,
        last_match: i64,
    ) -> (r: i64)
        requires
            old(self).wf(),
            old(self).file_offset == pos as i64,
            weak_sum == rsum_value(
                window(data@, pos as int, old(self).metafile.blocksize as int),
            ),
            gen_ready(
                *old(gen),
                data@,
                pos as int,
                old(self).metafile.blocksize as int,
                old(self).metafile.checksum_bytes as int,
            ),
            pos + old(self).metafile.blocksize <= usize::MAX,
            pos + old(self).metafile.blocksize <= 0x7FFF_FFFF_FFFF_FFFF,
            0 <= last_match <= pos as i64,
        ensures
            final(self).wf(),
            final(self).metafile == old(self).metafile,
            final(self).file_offset == old(self).file_offset,
            *final(gen) == *old(gen),
            ({
                let st = (ScanSt {
                    map: old(self).file_map@,
                    tbl: old(self).hashtable@,
                    last: last_match as int,
                });
                let st2 = scan_at(
                    st,
                    data@,
                    pos as int,
                    old(self).metafile.blocksize as int,
                    old(self).metafile.rsum_bytes,
                    old(self).metafile.checksum_bytes as int,
                );
                &&& final(self).file_map@ == st2.map
                &&& final(self).hashtable@ == st2.tbl
                &&& r == st2.last
                &&& 0 <= st2.last <= pos as i64
            }),
            forall|i: int|
                0 <= i < old(self).file_map@.len() && old(self).file_map@[i] != -1
                    ==> final(self).file_map@[i] == old(self).file_map@[i],
    {
        let ghost d = data@;
        let ghost st = ScanSt {
            map: self.file_map@,
            tbl: self.hashtable@,
            last: last_match as int,
        };
        let ghost rb = self.metafile.rsum_bytes;
        let ghost ssl = self.metafile.checksum_bytes as int;
        let bs = self.metafile.blocksize;
        proof {
            reveal(gen_ready);
            reveal(scan_at);
            assert(self.hashtable@.len() == self.hashtable.array_size);
        }
        if !(pos == 0 || self.file_offset >= last_match + bs as i64) {
            return last_match;
        }
        let w_sum = self.update_weak_sum(weak_sum);
        proof {
            assert(w_sum == canonical_weak(rsum_value(window(d, pos as int, bs as int)), rb));
        }
        if !self.hash_look_up(w_sum, Vec::new()) {
            return last_match;
        }
        let block_buffer = window_vec(data, pos, bs);
        let strong_sum = gen.generate_strong_sum(&block_buffer, 0, bs);
        proof {
            assert(block_buffer@.subrange(0, bs as int) =~= block_buffer@);
            assert(strong_sum@ == md4_digest(window(d, pos as int, bs as int)).subrange(
                0,
                ssl,
            ));
        }
        let temp_weak_sum = self.update_weak_sum(weak_sum);
        let ghost pre_exact = *self;
        let match_ = self.hash_look_up(temp_weak_sum, strong_sum);
        proof {
            assert(pre_exact.file_map@ == st.map && pre_exact.hashtable@ == st.tbl);
            assert(pre_exact.file_offset == pos as i64);
        }
        if match_ {
            self.file_offset
        } else {
            last_match
        }
    }

    /// The portion of the target, in bytes, not yet known complete when
    /// `progress` percent of it is: `length * (100 - progress) / 100`.
    pub fn remaining_size(&self, progress: u32) -> (r: u64)
        requires
            progress <= 100,
            self.metafile.length <= 0x0100_0000_0000_0000,
        ensures
            r == self.metafile.length * (100 - progress) / 100,
    {
        proof {
            assert(self.metafile.length * (100 - progress) <= 0x0100_0000_0000_0000int * 100)
                by (nonlinear_arith)
                requires 0 <= self.metafile.length <= 0x0100_0000_0000_0000, 0 <= 100 - progress
                    <= 100;
        }
        ((self.metafile.length as u64) * ((100 - progress) as u64)) / 100
    }
}

} // verus!
