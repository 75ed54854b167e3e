use vstd::prelude::*;
use crate::util::chaininghash::{bucket_of, ChainingHash};
use crate::util::checksumpair::{ChecksumPair, PairV};
use crate::util::copy::copy_range;

verus! {

/// Why a manifest could not be constructed.
#[derive(Clone, Copy, PartialEq, Eq, Structural, Debug)]
pub enum MetaFileError {
    /// The `mtime` header value is not a well-formed RFC 2822 timestamp.
    BadTimestamp,
    /// The block size is missing, zero, or too large to work with.
    BadBlockSize,
    /// The declared checksum widths exceed what the checksums support.
    BadHashLengths,
    /// The target length and block size describe more blocks than a manifest
    /// can hold.
    TooManyBlocks,
    /// The binary checksum body holds fewer records than the block count.
    TruncatedChecksums,
}

/// What the RFC 2822 parse of a byte string yields: epoch seconds if the
/// bytes form a well-formed timestamp. The outcome depends on the bytes
/// alone.
pub uninterp spec fn rfc2822_epoch(s: Seq<u8>) -> Option<i64>;

/// Relies on chrono::DateTime::parse_from_rfc2822: parses
/// `v[s .. e]` as an RFC 2822 timestamp and returns its epoch seconds.
#[verifier::external_body]
fn parse_rfc2822(v: &Vec<u8>, s: usize, e: usize) -> (r: Option<i64>)
    requires
        s <= e <= v@.len(),
    ensures
        r == rfc2822_epoch(v@.subrange(s as int, e as int)),
{
    match core::str::from_utf8(&v[s..e]) {
        Ok(txt) => match chrono::DateTime::parse_from_rfc2822(txt) {
            Ok(d) => Some(d.timestamp()),
            Err(_) => None,
        },
        Err(_) => None,
    }
}

/// Ceiling division for non-negative `a` and positive `b`.
pub open spec fn ceil_div(a: int, b: int) -> int {
    (a + b - 1) / b
}

pub proof fn lemma_ceil_div(a: int, b: int)
    requires
        a >= 0,
        b >= 1,
    ensures
        ceil_div(a, b) == a / b + if a % b == 0 {
            0int
        } else {
            1int
        },
        ceil_div(a, b) * b >= a,
        a > 0 ==> (ceil_div(a, b) - 1) * b < a,
{
    let q = a / b;
    let r = a % b;
    vstd::arithmetic::div_mod::lemma_fundamental_div_mod(a, b);
    vstd::arithmetic::div_mod::lemma_mod_bound(a, b);
    if r == 0 {
        assert(a + b - 1 == q * b + (b - 1)) by (nonlinear_arith)
            requires a == b * q + 0;
        vstd::arithmetic::div_mod::lemma_fundamental_div_mod_converse(a + b - 1, b, q, b - 1);
        assert(q * b == a) by (nonlinear_arith)
            requires a == b * q + 0;
        if a > 0 {
            assert((q - 1) * b < a) by (nonlinear_arith)
                requires q * b == a, b >= 1;
        }
    } else {
        assert(a + b - 1 == (q + 1) * b + (r - 1)) by (nonlinear_arith)
            requires a == b * q + r;
        vstd::arithmetic::div_mod::lemma_fundamental_div_mod_converse(a + b - 1, b, q + 1, r - 1);
        assert((q + 1) * b >= a) by (nonlinear_arith)
            requires a == b * q + r, r < b;
        assert(q * b < a) by (nonlinear_arith)
            requires a == b * q + r, r > 0;
    }
}

/// The number of buckets the index is built with, grown by doubling from
/// `c` until it reaches `n`.
pub open spec fn bucket_count_from(c: int, n: int) -> int
    decreases (if n - c > 0 { n - c } else { 0 }),
{
    if c <= 0 || c >= n {
        c
    } else {
        bucket_count_from(2 * c, n)
    }
}

/// The number of buckets for a manifest of `n` blocks: the smallest power of
/// two that is at least `n`, and at least 16.
pub open spec fn bucket_count(n: int) -> int {
    bucket_count_from(16, n)
}

/// An empty index of `size` buckets.
pub open spec fn empty_table(size: int) -> Seq<Seq<PairV>> {
    Seq::new(size as nat, |i: int| Seq::<PairV>::empty())
}

/// One insertion: the entry is appended to the bucket its weak checksum
/// selects.
pub open spec fn table_insert(tbl: Seq<Seq<PairV>>, p: PairV) -> Seq<Seq<PairV>> {
    let bi = bucket_of(p.weak, tbl.len() as int);
    tbl.update(bi, tbl[bi].push(p))
}

/// The canonical 32-bit form of a stored weak checksum: the record's bytes
/// zero-padded to four, then assembled with bytes 2 and 3 in the high half
/// and bytes 0 and 1 in the low half.
pub open spec fn stored_weak(rec: Seq<u8>) -> u32 {
    let p = rec + seq![0u8, 0u8, 0u8, 0u8];
    (p[2] * 0x1000000 + p[3] * 0x10000 + p[0] * 0x100 + p[1]) as u32
}

/// The index entry that record `k` of the checksum body describes.
pub open spec fn block_record(body: Seq<u8>, rb: int, sb: int, bs: int, k: int) -> PairV {
    let off = k * (rb + sb);
    PairV {
        weak: stored_weak(body.subrange(off, off + rb)),
        strong: body.subrange(off + rb, off + rb + sb),
        offset: (k * bs) as u64,
        length: bs as u32,
        seq: k as u32,
    }
}

/// The index contents after the first `n` records of the body are inserted
/// in block order into an empty table of `size` buckets.
pub open spec fn table_after(body: Seq<u8>, rb: int, sb: int, bs: int, n: int, size: int)
    -> Seq<Seq<PairV>>
    decreases (if n > 0 { n } else { 0 }),
{
    if n <= 0 {
        empty_table(size)
    } else {
        table_insert(
            table_after(body, rb, sb, bs, n - 1, size),
            block_record(body, rb, sb, bs, n - 1),
        )
    }
}

/// Reads record `seq` of the checksum body: `rb` stored weak bytes (read
/// into the reused four-byte buffer, whose upper slots stay zero) followed by
/// `sb` strong bytes.
fn read_record(checksums: &Vec<u8>, weak: &mut Vec<u8>, off: usize, rb: usize, sb: usize,
    bs: usize, seq: u32) -> (r: ChecksumPair)
    requires
        old(weak)@.len() == 4,
        forall|i: int| rb <= i < 4 ==> old(weak)@[i] == 0,
        rb <= 4,
        bs <= u32::MAX,
        seq <= 0x4000_0000,
        off == seq * (rb + sb),
        off + rb + sb <= checksums@.len(),
    ensures
        final(weak)@.len() == 4,
        forall|i: int| rb <= i < 4 ==> final(weak)@[i] == 0,
        r@ == block_record(checksums@, rb as int, sb as int, bs as int, seq as int),
{
    let ghost cs = checksums@;
    let ghost off0 = off as int;
    let cn = checksums.len();
    let mut off = off;
    let mut w: usize = 0;
    while w < rb
        invariant
            w <= rb,
            rb <= 4,
            off0 >= 0,
            weak@.len() == 4,
            off == off0 + w,
            off0 + (rb + sb) <= cs.len(),
            cn == cs.len(),
            cs == checksums@,
            forall|i: int| 0 <= i < w ==> weak@[i] == cs[off0 + i],
            forall|i: int| rb <= i < 4 ==> weak@[i] == 0,
        decreases rb - w,
    {
        weak.set(w, checksums[off]);
        off += 1;
        w += 1;
    }
    let mut strong_sum: Vec<u8> = Vec::new();
    proof {
        assert(strong_sum@ =~= cs.subrange(off0 + rb, off0 + rb + 0));
    }
    let mut s2: usize = 0;
    while s2 < sb
        invariant
            s2 <= sb,
            off0 >= 0,
            off == off0 + rb + s2,
            off0 + (rb + sb) <= cs.len(),
            cn == cs.len(),
            cs == checksums@,
            strong_sum@ == cs.subrange(off0 + rb, off0 + rb + s2),
        decreases sb - s2,
    {
        let ghost prev = strong_sum@;
        strong_sum.push(checksums[off]);
        proof {
            let post = cs.subrange(off0 + rb, off0 + rb + s2 + 1);
            assert forall|k: int| 0 <= k < s2 + 1 implies strong_sum@[k] == post[k] by {
                if k < s2 {
                    assert(prev[k] == cs.subrange(off0 + rb, off0 + rb + s2)[k]);
                }
            }
            assert(strong_sum@ =~= post);
        }
        off += 1;
        s2 += 1;
    }
    let weak_sum: u32 = (weak[2] as u32) * 0x1000000 + (weak[3] as u32) * 0x10000
        + (weak[0] as u32) * 0x100 + (weak[1] as u32);
    proof {
        assert(seq * bs <= 0x4000_0000int * 0xFFFF_FFFFint) by (nonlinear_arith)
            requires 0 <= seq <= 0x4000_0000, 0 <= bs <= 0xFFFF_FFFF;
    }
    let block_offset: u64 = (seq as u64) * (bs as u64);
    let pair = ChecksumPair {
        weak: weak_sum,
        strong: strong_sum,
        offset: block_offset,
        length: bs as u32,
        seq,
    };
    proof {
        let rec = block_record(cs, rb as int, sb as int, bs as int, seq as int);
        let stored = cs.subrange(off0, off0 + rb);
        let p = stored + seq![0u8, 0u8, 0u8, 0u8];
        assert forall|i: int| 0 <= i < 4 implies p[i] == weak@[i] by {
            if i < rb {
                assert(stored[i] == cs[off0 + i]);
            }
        }
        assert(pair@.weak == rec.weak);
        assert(pair@.strong == rec.strong);
        assert(pair@.offset == rec.offset) by {
            assert(seq * bs == (seq as u64) * (bs as u64) <= 0x4000_0000u64
                * 0xFFFF_FFFFu64) by (nonlinear_arith)
                requires seq <= 0x4000_0000, bs <= u32::MAX;
        }
        assert(pair@ == rec);
    }
    pair
}


/// The entries that building the index from `n` records yields name the
/// blocks `0 .. n`, each exactly once.
pub proof fn lemma_table_after_session(body: Seq<u8>, rb: int, sb: int, bs: int, n: int,
    size: int)
    requires
        size >= 1,
        0 <= n <= 0x1_0000_0000,
    ensures
        table_after(body, rb, sb, bs, n, size).len() == size,
        crate::file_maker::tbl_session(table_after(body, rb, sb, bs, n, size), n),
    decreases (if n > 0 { n } else { 0 }),
{
    reveal(crate::file_maker::tbl_session);
    let tbl = table_after(body, rb, sb, bs, n, size);
    if n <= 0 {
        assert(tbl =~= empty_table(size));
    } else {
        lemma_table_after_session(body, rb, sb, bs, n - 1, size);
        let prev = table_after(body, rb, sb, bs, n - 1, size);
        let rec = block_record(body, rb, sb, bs, n - 1);
        let bi = bucket_of(rec.weak, prev.len() as int);
        vstd::arithmetic::div_mod::lemma_mod_bound(
            crate::util::checksumpair::pair_hash(rec.weak) as int,
            size,
        );
        assert(rec.seq == n - 1);
        assert forall|b: int, k: int|
            0 <= b < tbl.len() && 0 <= k < tbl[b].len() implies 0 <= (#[trigger] tbl[b][k]).seq
            < n by {
            if b == bi && k == prev[bi].len() {
                assert(tbl[b][k] == rec);
            } else {
                assert(tbl[b][k] == prev[b][k]);
            }
        }
        assert forall|b1: int, k1: int, b2: int, k2: int|
            0 <= b1 < tbl.len() && 0 <= k1 < tbl[b1].len() && 0 <= b2 < tbl.len() && 0 <= k2
                < tbl[b2].len() && (b1 != b2 || k1 != k2) implies (#[trigger] tbl[b1][k1]).seq
            != (#[trigger] tbl[b2][k2]).seq by {
            if b1 == bi && k1 == prev[bi].len() {
                assert(tbl[b1][k1] == rec);
                assert(tbl[b2][k2] == prev[b2][k2]);
                assert(prev[b2][k2].seq < n - 1);
            } else if b2 == bi && k2 == prev[bi].len() {
                assert(tbl[b2][k2] == rec);
                assert(tbl[b1][k1] == prev[b1][k1]);
                assert(prev[b1][k1].seq < n - 1);
            } else {
                assert(tbl[b1][k1] == prev[b1][k1]);
                assert(tbl[b2][k2] == prev[b2][k2]);
            }
        }
    }
}

/// An ASCII space, tab, carriage return or line feed.
pub open spec fn is_space(b: u8) -> bool {
    b == 0x20 || b == 0x09 || b == 0x0D || b == 0x0A
}

/// An ASCII decimal digit.
pub open spec fn is_digit(b: u8) -> bool {
    0x30 <= b <= 0x39
}

pub open spec fn all_digits(s: Seq<u8>) -> bool {
    forall|i: int| 0 <= i < s.len() ==> is_digit(#[trigger] s[i])
}

/// The number that a string of decimal digits denotes.
pub open spec fn dec_value(s: Seq<u8>) -> int
    decreases s.len(),
{
    if s.len() == 0 {
        0
    } else {
        dec_value(s.drop_last()) * 10 + (s.last() - 0x30)
    }
}

proof fn lemma_dec_value_nonneg(s: Seq<u8>)
    requires
        all_digits(s),
    ensures
        dec_value(s) >= 0,
    decreases s.len(),
{
    if s.len() > 0 {
        assert(all_digits(s.drop_last()));
        lemma_dec_value_nonneg(s.drop_last());
    }
}

/// Reading more digits never shrinks the denoted number.
proof fn lemma_dec_value_prefix(s: Seq<u8>, j: int)
    requires
        all_digits(s),
        0 <= j <= s.len(),
    ensures
        dec_value(s.subrange(0, j)) <= dec_value(s),
    decreases s.len() - j,
{
    if j == s.len() {
        assert(s.subrange(0, j) =~= s);
        lemma_dec_value_nonneg(s);
    } else {
        let a = s.subrange(0, j);
        let b = s.subrange(0, j + 1);
        assert(all_digits(a));
        lemma_dec_value_nonneg(a);
        assert(b.drop_last() =~= a);
        assert(is_digit(b.last()));
        assert(dec_value(b) == dec_value(a) * 10 + (b.last() - 0x30));
        lemma_dec_value_prefix(s, j + 1);
    }
}

/// Lower-cases an ASCII byte.
pub open spec fn lower_byte(b: u8) -> u8 {
    if 0x41 <= b <= 0x5A {
        (b + 0x20) as u8
    } else {
        b
    }
}

pub open spec fn lower_seq(s: Seq<u8>) -> Seq<u8> {
    s.map_values(|b: u8| lower_byte(b))
}

/// Strips leading and trailing ASCII whitespace from `data[s .. e]`,
/// returning the bounds of what is left.
fn trim_range(data: &Vec<u8>, s: usize, e: usize) -> (r: (usize, usize))
    requires
        s <= e <= data@.len(),
    ensures
        s <= r.0 <= r.1 <= e,
        r.0 == skip_spaces(data@, s as int, e as int),
        r.1 == rskip_spaces(data@, r.0 as int, e as int),
{
    let mut a = s;
    let mut b = e;
    while a < b && (data[a] == 0x20 || data[a] == 0x09 || data[a] == 0x0D || data[a] == 0x0A)
        invariant
            s <= a <= b,
            b == e,
            e <= data@.len(),
            skip_spaces(data@, s as int, e as int) == skip_spaces(data@, a as int, e as int),
        decreases b - a,
    {
        a += 1;
    }
    proof {
        assert(skip_spaces(data@, s as int, e as int) == a);
    }
    while b > a && (data[b - 1] == 0x20 || data[b - 1] == 0x09 || data[b - 1] == 0x0D || data[b
        - 1] == 0x0A)
        invariant
            s <= a <= b <= e,
            e <= data@.len(),
            rskip_spaces(data@, a as int, e as int) == rskip_spaces(data@, a as int, b as int),
        decreases b - a,
    {
        b -= 1;
    }
    proof {
        assert(rskip_spaces(data@, a as int, e as int) == b);
    }
    (a, b)
}

/// The position of the first `b` in `data[s .. e]`, or `e` if there is none.
fn find_byte(data: &Vec<u8>, s: usize, e: usize, b: u8) -> (r: usize)
    requires
        s <= e <= data@.len(),
    ensures
        s <= r <= e,
        r == scan_to(data@, s as int, e as int, b),
        r < e ==> data@[r as int] == b,
{
    let mut i = s;
    while i < e && data[i] != b
        invariant
            s <= i <= e,
            e <= data@.len(),
            scan_to(data@, s as int, e as int, b) == scan_to(data@, i as int, e as int, b),
        decreases e - i,
    {
        i += 1;
    }
    proof {
        assert(scan_to(data@, i as int, e as int, b) == i || scan_to(data@, i as int, e as int,
            b) == e);
    }
    i
}

/// Whether `data[s .. e]`, lower-cased, spells the given key.
fn key_matches(data: &Vec<u8>, s: usize, e: usize, pat: &[u8]) -> (r: bool)
    requires
        s <= e <= data@.len(),
    ensures
        r == (lower_seq(data@.subrange(s as int, e as int)) == pat@),
{
    let ghost seg = data@.subrange(s as int, e as int);
    let n = e - s;
    if n != pat.len() {
        proof {
            assert(lower_seq(seg).len() == seg.len());
        }
        return false;
    }
    let mut i: usize = 0;
    while i < n
        invariant
            i <= n,
            n == e - s,
            s <= e <= data@.len(),
            n == pat@.len(),
            seg == data@.subrange(s as int, e as int),
            forall|k: int| 0 <= k < i ==> lower_seq(seg)[k] == pat@[k],
        decreases n - i,
    {
        let b = data[s + i];
        let lb: u8 = if 0x41 <= b && b <= 0x5A {
            b + 0x20
        } else {
            b
        };
        proof {
            assert(seg[i as int] == data@[s + i]);
            assert(lower_seq(seg)[i as int] == lower_byte(seg[i as int]));
        }
        if lb != *vstd::slice::slice_index_get(pat, i) {
            proof {
                assert(lower_seq(seg)[i as int] != pat@[i as int]);
            }
            return false;
        }
        i += 1;
    }
    proof {
        assert(lower_seq(seg) =~= pat@);
    }
    true
}

/// Parses `data[s .. e]` as an unsigned decimal number: the denoted value,
/// if the range is a non-empty string of digits and the value fits.
pub fn parse_decimal(data: &Vec<u8>, s: usize, e: usize) -> (r: Option<usize>)
    requires
        s <= e <= data@.len(),
    ensures
        ({
            let seg = data@.subrange(s as int, e as int);
            match r {
                Some(v) => e > s && all_digits(seg) && v == dec_value(seg) && dec_value(seg)
                    <= usize::MAX,
                None => !(e > s && all_digits(seg) && dec_value(seg) <= usize::MAX),
            }
        }),
{
    let ghost seg = data@.subrange(s as int, e as int);
    if s == e {
        return None;
    }
    let mut v: usize = 0;
    let mut i = s;
    while i < e
        invariant
            s <= i <= e,
            e <= data@.len(),
            s < e,
            seg == data@.subrange(s as int, e as int),
            all_digits(data@.subrange(s as int, i as int)),
            v == dec_value(data@.subrange(s as int, i as int)),
        decreases e - i,
    {
        let ghost pre = data@.subrange(s as int, i as int);
        let b = data[i];
        if b < 0x30 || b > 0x39 {
            proof {
                assert(seg[i - s] == b);
                assert(!all_digits(seg));
            }
            return None;
        }
        let d = (b - 0x30) as usize;
        proof {
            let post = data@.subrange(s as int, i + 1);
            assert(post.drop_last() =~= pre);
            assert(post.last() == b);
            assert(all_digits(post)) by {
                assert(forall|k: int| 0 <= k < pre.len() ==> post[k] == pre[k]);
            }
            vstd::arithmetic::div_mod::lemma_fundamental_div_mod(
                usize::MAX - d,
                10,
            );
            vstd::arithmetic::div_mod::lemma_mod_bound(usize::MAX - d, 10);
        }
        if v > (usize::MAX - d) / 10 {
            proof {
                let post = data@.subrange(s as int, i + 1);
                assert(dec_value(post) == v * 10 + d);
                if all_digits(seg) && dec_value(seg) <= usize::MAX {
                    assert(seg.subrange(0, i + 1 - s) =~= post);
                    lemma_dec_value_prefix(seg, i + 1 - s);
                    assert(false);
                }
            }
            return None;
        }
        v = v * 10 + d;
        proof {
            assert(v == dec_value(data@.subrange(s as int, i + 1)));
        }
        i += 1;
    }
    proof {
        assert(data@.subrange(s as int, e as int) =~= seg);
    }
    Some(v)
}


/// The first position of byte `b` in `d[i .. e)`, or `e` if there is none.
pub open spec fn scan_to(d: Seq<u8>, i: int, e: int, b: u8) -> int
    decreases (if e - i > 0 { e - i } else { 0 }),
{
    if i >= e {
        e
    } else if d[i] == b {
        i
    } else {
        scan_to(d, i + 1, e, b)
    }
}

pub proof fn lemma_scan_to_bounds(d: Seq<u8>, i: int, e: int, b: u8)
    requires
        i <= e,
    ensures
        i <= scan_to(d, i, e, b) <= e,
    decreases (if e - i > 0 { e - i } else { 0 }),
{
    if i < e && d[i] != b {
        lemma_scan_to_bounds(d, i + 1, e, b);
    }
}

/// The first position in `d[s .. e)` that does not hold whitespace, or `e`.
pub open spec fn skip_spaces(d: Seq<u8>, s: int, e: int) -> int
    decreases (if e - s > 0 { e - s } else { 0 }),
{
    if s >= e || !is_space(d[s]) {
        s
    } else {
        skip_spaces(d, s + 1, e)
    }
}

/// One past the last position in `d[s .. e)` that does not hold whitespace,
/// or `s`.
pub open spec fn rskip_spaces(d: Seq<u8>, s: int, e: int) -> int
    decreases (if e - s > 0 { e - s } else { 0 }),
{
    if e <= s || !is_space(d[e - 1]) {
        e
    } else {
        rskip_spaces(d, s, e - 1)
    }
}

/// What a numeric header value denotes: its decimal value when it is a
/// non-empty string of digits that fits, zero otherwise.
pub open spec fn dec_or_zero(s: Seq<u8>) -> int {
    if s.len() > 0 && all_digits(s) && dec_value(s) <= usize::MAX {
        dec_value(s)
    } else {
        0
    }
}

/// The same for a 32-bit field of the hash-lengths list.
pub open spec fn dec_u32_or_zero(s: Seq<u8>) -> u32 {
    if s.len() > 0 && all_digits(s) && dec_value(s) <= u32::MAX {
        dec_value(s) as u32
    } else {
        0u32
    }
}

pub open spec fn key_zsync() -> Seq<u8> {
    seq![0x7Au8, 0x73, 0x79, 0x6E, 0x63]
}

pub open spec fn key_filename() -> Seq<u8> {
    seq![0x66u8, 0x69, 0x6C, 0x65, 0x6E, 0x61, 0x6D, 0x65]
}

pub open spec fn key_mtime() -> Seq<u8> {
    seq![0x6Du8, 0x74, 0x69, 0x6D, 0x65]
}

pub open spec fn key_blocksize() -> Seq<u8> {
    seq![0x62u8, 0x6C, 0x6F, 0x63, 0x6B, 0x73, 0x69, 0x7A, 0x65]
}

pub open spec fn key_length() -> Seq<u8> {
    seq![0x6Cu8, 0x65, 0x6E, 0x67, 0x74, 0x68]
}

pub open spec fn key_hash_lengths() -> Seq<u8> {
    seq![0x68u8, 0x61, 0x73, 0x68, 0x2D, 0x6C, 0x65, 0x6E, 0x67, 0x74, 0x68, 0x73]
}

pub open spec fn key_url() -> Seq<u8> {
    seq![0x75u8, 0x72, 0x6C]
}

pub open spec fn key_sha1() -> Seq<u8> {
    seq![0x73u8, 0x68, 0x61, 0x2D, 0x31]
}

/// The header fields a manifest's text lines populate.
pub ghost struct HeaderFields {
    pub zsync: Seq<u8>,
    pub filename: Seq<u8>,
    pub m_time: i64,
    pub blocksize: int,
    pub length: int,
    pub seq_num: u32,
    pub rsum_bytes: u32,
    pub checksum_bytes: u32,
    pub url: Seq<u8>,
    pub sha1: Seq<u8>,
}

/// The header fields a manifest value currently holds.
pub open spec fn fields_of(m: MetaFile) -> HeaderFields {
    HeaderFields {
        zsync: m.zsync@,
        filename: m.filename@,
        m_time: m.m_time,
        blocksize: m.blocksize as int,
        length: m.length as int,
        seq_num: m.seq_num,
        rsum_bytes: m.rsum_bytes,
        checksum_bytes: m.checksum_bytes,
        url: m.url@,
        sha1: m.sha1@,
    }
}

/// Whether the header line `d[ls .. le)` is fatal: an `mtime` key whose
/// trimmed value is not a well-formed timestamp.
pub open spec fn line_fails(d: Seq<u8>, ls: int, le: int) -> bool {
    let c = scan_to(d, ls, le, 0x3A);
    if c == le {
        false
    } else {
        let ks = skip_spaces(d, ls, c);
        let ke = rskip_spaces(d, ks, c);
        let vs = skip_spaces(d, c + 1, le);
        let ve = rskip_spaces(d, vs, le);
        lower_seq(d.subrange(ks, ke)) == key_mtime() && rfc2822_epoch(d.subrange(vs, ve))
            is None
    }
}

/// What the header line `d[ls .. le)` does to the fields: a recognized key
/// stores its trimmed value, an unrecognized key or a line without a colon
/// changes nothing.
pub open spec fn line_effect(f: HeaderFields, d: Seq<u8>, ls: int, le: int) -> HeaderFields {
    let c = scan_to(d, ls, le, 0x3A);
    if c == le {
        f
    } else {
        let ks = skip_spaces(d, ls, c);
        let ke = rskip_spaces(d, ks, c);
        let vs = skip_spaces(d, c + 1, le);
        let ve = rskip_spaces(d, vs, le);
        let key = lower_seq(d.subrange(ks, ke));
        let v = d.subrange(vs, ve);
        if key == key_zsync() {
            HeaderFields { zsync: v, ..f }
        } else if key == key_filename() {
            HeaderFields { filename: v, ..f }
        } else if key == key_mtime() {
            if rfc2822_epoch(v) is Some {
                HeaderFields { m_time: rfc2822_epoch(v)->Some_0, ..f }
            } else {
                f
            }
        } else if key == key_blocksize() {
            HeaderFields { blocksize: dec_or_zero(v), ..f }
        } else if key == key_length() {
            HeaderFields { length: dec_or_zero(v), ..f }
        } else if key == key_hash_lengths() {
            let c1 = scan_to(d, vs, ve, 0x2C);
            let s2 = if c1 < ve {
                c1 + 1
            } else {
                ve
            };
            let c2 = scan_to(d, s2, ve, 0x2C);
            let s3 = if c2 < ve {
                c2 + 1
            } else {
                ve
            };
            let c3 = scan_to(d, s3, ve, 0x2C);
            HeaderFields {
                seq_num: dec_u32_or_zero(d.subrange(vs, c1)),
                rsum_bytes: dec_u32_or_zero(d.subrange(s2, c2)),
                checksum_bytes: dec_u32_or_zero(d.subrange(s3, c3)),
                ..f
            }
        } else if key == key_url() {
            HeaderFields { url: v, ..f }
        } else if key == key_sha1() {
            HeaderFields { sha1: v, ..f }
        } else {
            f
        }
    }
}

/// The outcome of reading the header from `pos` on: the fields after every
/// line before the blank line (or end of input), where the body begins, and
/// whether a fatal line was hit first.
pub ghost struct HeaderScan {
    pub fields: HeaderFields,
    pub body: int,
    pub failed: bool,
}

pub open spec fn run_header(f: HeaderFields, d: Seq<u8>, pos: int) -> HeaderScan
    decreases (if d.len() - pos > 0 { d.len() - pos } else { 0 })
        via run_header_decreases
{
    if pos >= d.len() {
        HeaderScan { fields: f, body: pos, failed: false }
    } else {
        let e = scan_to(d, pos, d.len() as int, 0x0A);
        let nxt = if e < d.len() {
            e + 1
        } else {
            d.len() as int
        };
        if e == pos {
            HeaderScan { fields: f, body: nxt, failed: false }
        } else if line_fails(d, pos, e) {
            HeaderScan { fields: f, body: nxt, failed: true }
        } else {
            run_header(line_effect(f, d, pos, e), d, nxt)
        }
    }
}

#[via_fn]
proof fn run_header_decreases(f: HeaderFields, d: Seq<u8>, pos: int) {
    if pos < d.len() {
        lemma_scan_to_bounds(d, pos, d.len() as int, 0x0A);
    }
}

/// The result the manifest bytes decide, in the order the checks run:
/// a fatal header line first, then the block size, the checksum widths,
/// the block count, and the checksum body's length; `Ok` when all pass.
pub open spec fn parse_verdict(h: HeaderScan, d: Seq<u8>) -> Result<(), MetaFileError> {
    if h.failed {
        Err(MetaFileError::BadTimestamp)
    } else if h.fields.blocksize == 0 || h.fields.blocksize > 0xFFFF_FFFF {
        Err(MetaFileError::BadBlockSize)
    } else if h.fields.rsum_bytes > 4 || h.fields.checksum_bytes == 0
        || h.fields.checksum_bytes > 16 {
        Err(MetaFileError::BadHashLengths)
    } else if h.fields.length > usize::MAX - h.fields.blocksize || ceil_div(
        h.fields.length,
        h.fields.blocksize,
    ) > 0x4000_0000 {
        Err(MetaFileError::TooManyBlocks)
    } else if d.len() - h.body < ceil_div(h.fields.length, h.fields.blocksize) * (
    h.fields.rsum_bytes + h.fields.checksum_bytes) {
        Err(MetaFileError::TruncatedChecksums)
    } else {
        Ok(())
    }
}

/// The manifest describing the target file: header fields and the block
/// checksum index built from the binary body.
pub struct MetaFile {
    pub zsync: Vec<u8>,
    pub filename: Vec<u8>,
    pub m_time: i64,
    pub blocksize: usize,
    pub length: usize,
    pub seq_num: u32,
    pub rsum_bytes: u32,
    pub checksum_bytes: u32,
    pub block_num: u32,
    pub url: Vec<u8>,
    pub sha1: Vec<u8>,
    pub hashtable: ChainingHash,
}

/// The body of the manifest begins at offset `b` of its bytes, and the index
/// holds exactly the records of that body.
pub open spec fn body_built(d: Seq<u8>, b: int, mf: MetaFile) -> bool {
    &&& 0 <= b <= d.len()
    &&& d.len() - b >= mf.block_num * (mf.rsum_bytes + mf.checksum_bytes)
    &&& mf.hashtable@ == table_after(
        d.subrange(b, d.len() as int),
        mf.rsum_bytes as int,
        mf.checksum_bytes as int,
        mf.blocksize as int,
        mf.block_num as int,
        bucket_count(mf.block_num as int),
    )
}

impl MetaFile {
    /// A manifest fit for matching: positive block size, a block count that
    /// covers the length, checksum widths within range, and a well-formed
    /// index.
    pub open spec fn wf(self) -> bool {
        &&& 1 <= self.blocksize <= u32::MAX
        &&& self.block_num == ceil_div(self.length as int, self.blocksize as int)
        &&& self.block_num <= 0x4000_0000
        &&& self.rsum_bytes <= 4
        &&& 1 <= self.checksum_bytes <= 16
        &&& self.length + self.blocksize <= usize::MAX
        &&& self.hashtable.wf()
        &&& self.hashtable.array_size >= 16
    }

    pub fn new() -> (r: MetaFile)
        ensures
            r.zsync@ == Seq::<u8>::empty(),
            r.filename@ == Seq::<u8>::empty(),
            r.m_time == 0,
            r.blocksize == 0,
            r.length == 0,
            r.seq_num == 0,
            r.rsum_bytes == 0,
            r.checksum_bytes == 0,
            r.block_num == 0,
            r.url@ == Seq::<u8>::empty(),
            r.sha1@ == Seq::<u8>::empty(),
            r.hashtable.array_size == 0,
            r.hashtable@.len() == 0,
    {
        MetaFile {
            zsync: Vec::new(),
            filename: Vec::new(),
            m_time: 0,
            blocksize: 0,
            length: 0,
            seq_num: 0,
            rsum_bytes: 0,
            checksum_bytes: 0,
            block_num: 0,
            url: Vec::new(),
            sha1: Vec::new(),
            hashtable: ChainingHash::new(0),
        }
    }

    /// Builds the block checksum index: one record per block, each holding
    /// `rsum_bytes` stored weak bytes followed by `checksum_bytes` strong
    /// bytes, inserted in block order.
    #[verifier::rlimit(100)]
    pub fn fill_hash_table(&mut self, checksums: &Vec<u8>)
        requires
            old(self).rsum_bytes <= 4,
            old(self).block_num <= 0x4000_0000,
            old(self).blocksize <= u32::MAX,
            checksums@.len() >= old(self).block_num * (old(self).rsum_bytes
                + old(self).checksum_bytes),
        ensures
            *final(self) == (MetaFile { hashtable: final(self).hashtable, ..*old(self) }),
            final(self).hashtable.wf(),
            final(self).hashtable.array_size == bucket_count(old(self).block_num as int),
            final(self).hashtable.array_size >= 16,
            final(self).hashtable@ == table_after(
                checksums@,
                old(self).rsum_bytes as int,
                old(self).checksum_bytes as int,
                old(self).blocksize as int,
                old(self).block_num as int,
                bucket_count(old(self).block_num as int),
            ),
    {
        let bn = self.block_num;
        let rb = self.rsum_bytes as usize;
        let sb = self.checksum_bytes as usize;
        let bs = self.blocksize;
        let mut size: u64 = 16;
        while size < bn as u64
            invariant
                16 <= size <= 0x8000_0000,
                bn <= 0x4000_0000,
                bucket_count_from(size as int, bn as int) == bucket_count(bn as int),
            decreases (if bn as int > size as int { bn as int - size as int } else { 0int }),
        {
            size = size * 2;
        }
        let size = size as usize;
        self.hashtable = ChainingHash::new(size);
        let mut weak: Vec<u8> = Vec::new();
        weak.push(0);
        weak.push(0);
        weak.push(0);
        weak.push(0);
        let cn = checksums.len();
        let mut off: usize = 0;
        let mut seq: u32 = 0;
        let ghost cs = checksums@;
        while seq < bn
            invariant
                seq <= bn,
                bn <= 0x4000_0000,
                cn == cs.len(),
                rb == old(self).rsum_bytes,
                sb == old(self).checksum_bytes,
                bs == old(self).blocksize,
                bn == old(self).block_num,
                rb <= 4,
                bs <= u32::MAX,
                cs == checksums@,
                cs.len() >= bn * (rb + sb),
                off == seq * (rb + sb),
                weak@.len() == 4,
                forall|i: int| rb <= i < 4 ==> weak@[i] == 0,
                self.hashtable.wf(),
                self.hashtable.array_size == size,
                size >= 16,
                self.hashtable@.len() == size,
                self.hashtable@ == table_after(cs, rb as int, sb as int, bs as int,
                    seq as int, size as int),
                bucket_count(bn as int) == size,
                *self == (MetaFile { hashtable: self.hashtable, ..*old(self) }),
            decreases bn - seq,
        {
            proof {
                assert((seq + 1) * (rb + sb) <= bn * (rb + sb)) by (nonlinear_arith)
                    requires seq + 1 <= bn, rb + sb >= 0;
                assert(off as int + (rb + sb) == (seq + 1) * (rb + sb)) by (nonlinear_arith)
                    requires off == seq * (rb + sb);
            }
            let pair = read_record(checksums, &mut weak, off, rb, sb, bs, seq);
            off = off + rb + sb;
            self.hashtable.insert(&pair);
            proof {
                assert(self.hashtable@ == table_after(cs, rb as int, sb as int, bs as int,
                    seq + 1, size as int));
            }
            seq += 1;
        }
    }

    /// Applies one `key: value` header line: a recognized key stores its
    /// value, an unparsable number stores zero, a line without a colon is
    /// ignored, and only an unparsable timestamp is fatal.
    /// Applies one `key: value` header line: a recognized key stores its
    /// trimmed value, an unparsable number stores zero, a line without a
    /// colon is ignored, and only an unparsable timestamp is fatal.
    fn apply_line(&mut self, data: &Vec<u8>, ls: usize, le: usize) -> (r: Result<
        (),
        MetaFileError,
    >)
        requires
            ls <= le <= data@.len(),
        ensures
            final(self).hashtable == old(self).hashtable,
            final(self).block_num == old(self).block_num,
            r is Ok <==> !line_fails(data@, ls as int, le as int),
            r is Ok ==> fields_of(*final(self)) == line_effect(
                fields_of(*old(self)),
                data@,
                ls as int,
                le as int,
            ),
            r is Err ==> r == Result::<(), MetaFileError>::Err(MetaFileError::BadTimestamp),
    {
        let ghost d = data@;
        let ghost f0 = fields_of(*self);
        let c = find_byte(data, ls, le, 0x3A);
        if c == le {
            return Ok(());
        }
        let (ks, ke) = trim_range(data, ls, c);
        let (vs, ve) = trim_range(data, c + 1, le);
        let p_zsync: [u8; 5] = [0x7A, 0x73, 0x79, 0x6E, 0x63];
        let p_filename: [u8; 8] = [0x66, 0x69, 0x6C, 0x65, 0x6E, 0x61, 0x6D, 0x65];
        let p_mtime: [u8; 5] = [0x6D, 0x74, 0x69, 0x6D, 0x65];
        let p_blocksize: [u8; 9] = [0x62, 0x6C, 0x6F, 0x63, 0x6B, 0x73, 0x69, 0x7A, 0x65];
        let p_length: [u8; 6] = [0x6C, 0x65, 0x6E, 0x67, 0x74, 0x68];
        let p_hash_lengths: [u8; 12] = [0x68, 0x61, 0x73, 0x68, 0x2D, 0x6C, 0x65, 0x6E, 0x67,
            0x74, 0x68, 0x73];
        let p_url: [u8; 3] = [0x75, 0x72, 0x6C];
        let p_sha1: [u8; 5] = [0x73, 0x68, 0x61, 0x2D, 0x31];
        proof {
            assert(p_zsync@ =~= key_zsync());
            assert(p_filename@ =~= key_filename());
            assert(p_mtime@ =~= key_mtime());
            assert(p_blocksize@ =~= key_blocksize());
            assert(p_length@ =~= key_length());
            assert(p_hash_lengths@ =~= key_hash_lengths());
            assert(p_url@ =~= key_url());
            assert(p_sha1@ =~= key_sha1());
            assert(key_zsync() != key_mtime()) by {
                assert(key_zsync()[0] == 0x7A && key_mtime()[0] == 0x6D);
            }
            assert(key_filename() != key_mtime()) by {
                assert(key_filename().len() != key_mtime().len());
            }
        }
        let ghost fx = line_effect(f0, d, ls as int, le as int);
        if key_matches(data, ks, ke, p_zsync.as_slice()) {
            self.zsync = copy_range(data, vs, ve);
        } else if key_matches(data, ks, ke, p_filename.as_slice()) {
            self.filename = copy_range(data, vs, ve);
        } else if key_matches(data, ks, ke, p_mtime.as_slice()) {
            match parse_rfc2822(data, vs, ve) {
                Some(t) => {
                    self.m_time = t;
                },
                None => {
                    proof {
                        assert(line_fails(d, ls as int, le as int));
                    }
                    return Err(MetaFileError::BadTimestamp);
                },
            }
        } else if key_matches(data, ks, ke, p_blocksize.as_slice()) {
            self.blocksize = match parse_decimal(data, vs, ve) {
                Some(v) => v,
                None => 0,
            };
        } else if key_matches(data, ks, ke, p_length.as_slice()) {
            self.length = match parse_decimal(data, vs, ve) {
                Some(v) => v,
                None => 0,
            };
        } else if key_matches(data, ks, ke, p_hash_lengths.as_slice()) {
            let c1 = find_byte(data, vs, ve, 0x2C);
            let s2 = if c1 < ve {
                c1 + 1
            } else {
                ve
            };
            let c2 = find_byte(data, s2, ve, 0x2C);
            let s3 = if c2 < ve {
                c2 + 1
            } else {
                ve
            };
            let c3 = find_byte(data, s3, ve, 0x2C);
            self.seq_num = Self::field_u32(data, vs, c1);
            self.rsum_bytes = Self::field_u32(data, s2, c2);
            self.checksum_bytes = Self::field_u32(data, s3, c3);
        } else if key_matches(data, ks, ke, p_url.as_slice()) {
            self.url = copy_range(data, vs, ve);
        } else if key_matches(data, ks, ke, p_sha1.as_slice()) {
            self.sha1 = copy_range(data, vs, ve);
        }
        proof {
            assert(!line_fails(d, ls as int, le as int));
            assert(fields_of(*self) == fx);
        }
        Ok(())
    }

    /// One numeric field of a comma list: an unparsable or overlarge value
    /// counts as zero rather than failing the parse.
    fn field_u32(data: &Vec<u8>, s: usize, e: usize) -> (r: u32)
        requires
            s <= e <= data@.len(),
        ensures
            r == dec_u32_or_zero(data@.subrange(s as int, e as int)),
    {
        proof {
            assert(usize::MAX >= u32::MAX);
        }
        match parse_decimal(data, s, e) {
            Some(v) => {
                if v <= 0xFFFF_FFFF {
                    v as u32
                } else {
                    0
                }
            },
            None => 0,
        }
    }

    /// Reads a manifest: `key: value` header lines up to a blank line, then
    /// the binary checksum body, which is fed in block order into the index.
    /// On success the manifest is fit for matching and its index holds
    /// exactly the body's records.
    /// Reads a manifest: `key: value` header lines up to a blank line, then
    /// the binary checksum body, which is fed in block order into the index.
    /// The result is exactly what the bytes decide: the header fold fixes
    /// every field, each error comes if and only if its check fails (in
    /// order: a bad timestamp, the block size, the checksum widths, the
    /// block count, a truncated body), and on success the manifest is fit
    /// for matching and its index holds exactly the body's records.
    pub fn parse_zsync(&mut self, data: &Vec<u8>) -> (r: Result<(), MetaFileError>)
        ensures
            r == parse_verdict(run_header(fields_of(*old(self)), data@, 0), data@),
            r is Ok ==> ({
                let h = run_header(fields_of(*old(self)), data@, 0);
                let bn = ceil_div(h.fields.length, h.fields.blocksize);
                &&& fields_of(*final(self)) == h.fields
                &&& final(self).block_num == bn
                &&& final(self).hashtable@ == table_after(
                    data@.subrange(h.body, data@.len() as int),
                    h.fields.rsum_bytes as int,
                    h.fields.checksum_bytes as int,
                    h.fields.blocksize,
                    bn,
                    bucket_count(bn),
                )
                &&& final(self).hashtable.array_size == bucket_count(bn)
                &&& final(self).wf()
                &&& crate::file_maker::tbl_session(
                    final(self).hashtable@,
                    final(self).block_num as int,
                )
                &&& body_built(data@, h.body, *final(self))
            }),
    {
        let ghost d = data@;
        let ghost h0 = run_header(fields_of(*old(self)), d, 0);
        let n = data.len();
        let mut pos: usize = 0;
        let mut header_done = false;
        while pos < n && !header_done
            invariant
                pos <= n,
                n == d.len(),
                d == data@,
                self.hashtable == old(self).hashtable,
                self.block_num == old(self).block_num,
                h0 == run_header(fields_of(*old(self)), d, 0),
                !header_done ==> h0 == run_header(fields_of(*self), d, pos as int),
                header_done ==> h0.fields == fields_of(*self) && h0.body == pos as int
                    && !h0.failed,
            decreases n - pos,
        {
            let ghost f_cur = fields_of(*self);
            let ghost pos0 = pos as int;
            let eol = find_byte(data, pos, n, 0x0A);
            let ghost nxt = if eol < n {
                eol as int + 1
            } else {
                n as int
            };
            if eol == pos {
                header_done = true;
                proof {
                    assert(h0 == (HeaderScan { fields: f_cur, body: nxt, failed: false }));
                }
            } else {
                match self.apply_line(data, pos, eol) {
                    Ok(()) => {
                        proof {
                            assert(h0 == run_header(fields_of(*self), d, nxt));
                        }
                    },
                    Err(e) => {
                        proof {
                            assert(line_fails(d, pos0, eol as int));
                            assert(h0.failed);
                        }
                        return Err(e);
                    },
                }
            }
            pos = if eol < n {
                eol + 1
            } else {
                n
            };
        }
        proof {
            if !header_done {
                assert(pos == n);
                assert(h0 == run_header(fields_of(*self), d, pos as int));
            }
            assert(h0.fields == fields_of(*self) && h0.body == pos as int && !h0.failed);
        }
        if self.blocksize == 0 || self.blocksize > 0xFFFF_FFFF {
            return Err(MetaFileError::BadBlockSize);
        }
        if self.rsum_bytes > 4 || self.checksum_bytes == 0 || self.checksum_bytes > 16 {
            return Err(MetaFileError::BadHashLengths);
        }
        if self.length > usize::MAX - self.blocksize {
            return Err(MetaFileError::TooManyBlocks);
        }
        let bn: usize = self.length / self.blocksize + if self.length % self.blocksize != 0 {
            1
        } else {
            0
        };
        proof {
            lemma_ceil_div(self.length as int, self.blocksize as int);
            assert(bn == ceil_div(h0.fields.length, h0.fields.blocksize));
        }
        if bn > 0x4000_0000 {
            return Err(MetaFileError::TooManyBlocks);
        }
        self.block_num = bn as u32;
        let rec: usize = self.rsum_bytes as usize + self.checksum_bytes as usize;
        let avail = n - pos;
        proof {
            assert(bn * rec <= 0x4000_0000int * 20) by (nonlinear_arith)
                requires 0 <= bn <= 0x4000_0000, 0 <= rec <= 20;
        }
        if (avail as u64) < (bn as u64) * (rec as u64) {
            return Err(MetaFileError::TruncatedChecksums);
        }
        let body = copy_range(data, pos, n);
        self.fill_hash_table(&body);
        proof {
            lemma_table_after_session(body@, self.rsum_bytes as int, self.checksum_bytes as int,
                self.blocksize as int, self.block_num as int,
                bucket_count(self.block_num as int));
            assert(body@ == d.subrange(h0.body, d.len() as int));
            assert(body_built(data@, pos as int, *self));
            reveal(crate::file_maker::tbl_session);
            assert(fields_of(*self) == h0.fields);
        }
        Ok(())
    }
}

impl Clone for MetaFile {
    fn clone(&self) -> (r: MetaFile)
        ensures
            r.zsync@ == self.zsync@,
            r.filename@ == self.filename@,
            r.m_time == self.m_time,
            r.blocksize == self.blocksize,
            r.length == self.length,
            r.seq_num == self.seq_num,
            r.rsum_bytes == self.rsum_bytes,
            r.checksum_bytes == self.checksum_bytes,
            r.block_num == self.block_num,
            r.url@ == self.url@,
            r.sha1@ == self.sha1@,
            r.hashtable@ == self.hashtable@,
            r.hashtable.array_size == self.hashtable.array_size,
            r.hashtable.index == self.hashtable.index,
            r.wf() == self.wf(),
    {
        let n_z = self.zsync.len();
        MetaFile {
            zsync: copy_range(&self.zsync, 0, n_z),
            filename: copy_range(&self.filename, 0, self.filename.len()),
            m_time: self.m_time,
            blocksize: self.blocksize,
            length: self.length,
            seq_num: self.seq_num,
            rsum_bytes: self.rsum_bytes,
            checksum_bytes: self.checksum_bytes,
            block_num: self.block_num,
            url: copy_range(&self.url, 0, self.url.len()),
            sha1: copy_range(&self.sha1, 0, self.sha1.len()),
            hashtable: self.hashtable.clone(),
        }
    }
}

impl Default for MetaFile {
    fn default() -> (r: MetaFile)
        ensures
            r.blocksize == 0,
            r.length == 0,
            r.block_num == 0,
    {
        MetaFile::new()
    }
}

} // verus!
