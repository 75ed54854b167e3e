use zsync_core::file_maker::FileMaker;
use zsync_core::meta_file::MetaFile;
use zsync_core::util::configuration::Configuration;
use zsync_core::util::generator::Generator;

fn checksums_of(window: &Vec<u8>, blocksize: usize, strong_len: usize) -> (u32, Vec<u8>) {
    let mut config = Configuration::new();
    config.block_length = blocksize;
    config.strong_sum_length = strong_len;
    let mut gen = Generator::new(config);
    let w = gen.generate_weak_sum(window, 0);
    let s = gen.generate_strong_sum(window, 0, blocksize);
    (w, s)
}

/// Builds manifest bytes for `target`: the text header, a blank line, then
/// one record per block with `rsum_bytes` stored weak bytes (laid out so the
/// reader reassembles the canonical form) and the truncated strong checksum.
fn build_manifest(
    target: &[u8],
    blocksize: usize,
    rsum_bytes: u32,
    strong_len: usize,
    seq_mode: u32,
) -> Vec<u8> {
    let block_num = (target.len() + blocksize - 1) / blocksize;
    let mut out: Vec<u8> = Vec::new();
    out.extend_from_slice(b"zsync: 0.6.2\n");
    out.extend_from_slice(b"Filename: sample\n");
    out.extend_from_slice(b"MTime: Wed, 18 Feb 2015 23:16:09 GMT\n");
    out.extend_from_slice(format!("Blocksize: {}\n", blocksize).as_bytes());
    out.extend_from_slice(format!("Length: {}\n", target.len()).as_bytes());
    out.extend_from_slice(
        format!("Hash-Lengths: {},{},{}\n", seq_mode, rsum_bytes, strong_len).as_bytes(),
    );
    out.extend_from_slice(b"URL: http://example/sample\n");
    out.extend_from_slice(b"SHA-1: 0000\n");
    out.push(b'\n');
    for k in 0..block_num {
        let mut window = vec![0u8; blocksize];
        for j in 0..blocksize {
            let idx = k * blocksize + j;
            if idx < target.len() {
                window[j] = target[idx];
            }
        }
        let (w, strong) = checksums_of(&window, blocksize, strong_len);
        match rsum_bytes {
            // reader reassembles stored bytes s as s2 s3 s0 s1 (high to low)
            4 => {
                out.push((w >> 8) as u8);
                out.push(w as u8);
                out.push((w >> 24) as u8);
                out.push((w >> 16) as u8);
            }
            // two stored bytes land in the low half: store the top two bytes
            2 => {
                out.push((w >> 24) as u8);
                out.push((w >> 16) as u8);
            }
            _ => panic!("unsupported width in this helper"),
        }
        out.extend_from_slice(&strong);
    }
    out
}

fn session(manifest: &Vec<u8>) -> FileMaker {
    let mut mf = MetaFile::new();
    mf.parse_zsync(manifest).expect("manifest must parse");
    FileMaker::new(&mf)
}

fn pseudo_bytes(n: usize) -> Vec<u8> {
    let mut v = Vec::with_capacity(n);
    let mut x: u64 = 0x2545F4914F6CDD1D;
    for _ in 0..n {
        x = x.wrapping_mul(6364136223846793005).wrapping_add(1442695040888963407);
        v.push((x >> 33) as u8);
    }
    v
}

#[test]
fn identical_candidate_matches_every_block() {
    let target = pseudo_bytes(4 * 4 + 2); // four full blocks and a short one
    let manifest = build_manifest(&target, 4, 4, 8, 1);
    let mut fm = session(&manifest);
    assert_eq!(fm.block_map().len(), 5);
    let progress = fm.map_matcher(&target.clone());
    assert_eq!(progress, 100);
    let map = fm.block_map();
    for k in 0..5usize {
        assert_eq!(map[k], (k * 4) as i64);
    }
    assert!(fm.file_maker().is_empty());
}

#[test]
fn empty_candidate_matches_nothing() {
    let target = pseudo_bytes(5 * 8);
    let manifest = build_manifest(&target, 8, 4, 6, 1);
    let mut fm = session(&manifest);
    let progress = fm.map_matcher(&Vec::new());
    assert_eq!(progress, 0);
    assert!(fm.block_map().iter().all(|&v| v == -1));
    let parts = fm.file_maker();
    assert_eq!(parts.len(), 1);
    assert_eq!(parts[0].start_offset, 0);
    assert_eq!(parts[0].end_offset, 5 * 8);
    assert_eq!(parts[0].block_length, 8);
    assert_eq!(parts[0].offset, 0);
    assert_eq!(fm.remaining_size(0), 40);
}

#[test]
fn altered_first_block_yields_range_at_zero() {
    let target = pseudo_bytes(6 * 4);
    let manifest = build_manifest(&target, 4, 4, 8, 1);
    let mut fm = session(&manifest);
    let mut candidate = target.clone();
    for j in 0..4 {
        candidate[j] = !candidate[j];
    }
    let progress = fm.map_matcher(&candidate);
    assert_eq!(progress, 5 * 100 / 6);
    let parts = fm.file_maker();
    assert_eq!(parts.len(), 1);
    assert_eq!(parts[0].start_offset, 0);
    assert_eq!(parts[0].end_offset, 4);
}

#[test]
fn narrow_weak_width_still_matches_identical_candidate() {
    let target = pseudo_bytes(3 * 16);
    let manifest = build_manifest(&target, 16, 2, 8, 1);
    let mut fm = session(&manifest);
    let progress = fm.map_matcher(&target.clone());
    assert_eq!(progress, 100);
}

#[test]
fn orphan_filter_fires_only_in_mode_two() {
    let target = pseudo_bytes(5 * 4);
    let manifest = build_manifest(&target, 4, 4, 8, 2);
    let mut fm = session(&manifest);
    fm.file_map = vec![-1, 4, -1, 12, 16];
    let p = fm.match_control();
    // block 1 is isolated and reverts; blocks 3 and 4 support each other
    assert_eq!(fm.block_map().as_slice(), &[-1, -1, -1, 12, 16]);
    assert_eq!(p, 2 * 100 / 5);

    let manifest1 = build_manifest(&target, 4, 4, 8, 1);
    let mut fm1 = session(&manifest1);
    fm1.file_map = vec![-1, 4, -1, 12, 16];
    let p1 = fm1.match_control();
    assert_eq!(fm1.block_map().as_slice(), &[-1, 4, -1, 12, 16]);
    assert_eq!(p1, 3 * 100 / 5);
}

#[test]
fn orphan_filter_clears_cascading_edges() {
    let target = pseudo_bytes(2 * 4);
    let manifest = build_manifest(&target, 4, 4, 8, 2);
    let mut fm = session(&manifest);
    fm.file_map = vec![0, -1];
    let p = fm.match_control();
    assert_eq!(fm.block_map().as_slice(), &[-1, -1]);
    assert_eq!(p, 0);
}

#[test]
fn ranges_split_at_one_hundred_blocks() {
    // 250 blocks of 4 bytes; the last block holds 2 bytes
    let target = pseudo_bytes(249 * 4 + 2);
    let manifest = build_manifest(&target, 4, 4, 4, 1);
    let mut fm = session(&manifest);
    let progress = fm.map_matcher(&Vec::new());
    assert_eq!(progress, 0);
    let parts = fm.file_maker();
    assert_eq!(parts.len(), 3);
    assert_eq!((parts[0].start_offset, parts[0].end_offset), (0, 400));
    assert_eq!(parts[0].block_length, 4);
    assert_eq!((parts[1].start_offset, parts[1].end_offset), (400, 800));
    assert_eq!((parts[2].start_offset, parts[2].end_offset), (800, 1000));
    assert_eq!(parts[2].block_length, 2);
}

#[test]
fn range_look_up_stops_at_matched_block() {
    let target = pseudo_bytes(6 * 4);
    let manifest = build_manifest(&target, 4, 4, 4, 1);
    let mut fm = session(&manifest);
    fm.file_map = vec![-1, -1, 8, -1, -1, -1];
    let ranges = fm.range_look_up(0);
    assert_eq!(ranges, vec![(0, 4), (4, 8)]);
    let ranges2 = fm.range_look_up(3);
    assert_eq!(ranges2, vec![(12, 16), (16, 20), (20, 24)]);
    assert!(fm.range_look_up(2).is_empty());
}

#[test]
fn canonicalization_by_declared_width() {
    let target = pseudo_bytes(2 * 4);
    let manifest = build_manifest(&target, 4, 4, 4, 1);
    let mut fm = session(&manifest);
    fm.metafile.rsum_bytes = 4;
    assert_eq!(fm.update_weak_sum(0x12345678), 0x12345678);
    fm.metafile.rsum_bytes = 2;
    assert_eq!(fm.update_weak_sum(0x12345678), 0x00001234);
    fm.metafile.rsum_bytes = 3;
    assert_eq!(fm.update_weak_sum(0x12345678), 0x34007812);
    fm.metafile.rsum_bytes = 0;
    assert_eq!(fm.update_weak_sum(0x12345678), 0);
}

#[test]
fn end_to_end_partial_match() {
    // 142 blocks of 8192 bytes; the last holds 422 bytes
    let blocksize = 8192usize;
    let length = 141 * blocksize + 422;
    let target = pseudo_bytes(length);
    let manifest = build_manifest(&target, blocksize, 4, 16, 1);
    let mut fm = session(&manifest);
    assert_eq!(fm.block_map().len(), 142);

    // alter two blocks in the middle; prefix and suffix stay identical
    let mut candidate = target.clone();
    for j in 50 * blocksize..52 * blocksize {
        candidate[j] = !candidate[j];
    }
    let progress = fm.map_matcher(&candidate);
    assert_eq!(progress, 140 * 100 / 142);
    assert_eq!(progress, 98);
    assert_eq!(fm.remaining_size(progress), (length as u64) * 2 / 100);

    let map = fm.block_map();
    for k in 0..142usize {
        if k == 50 || k == 51 {
            assert_eq!(map[k], -1);
        } else {
            assert_eq!(map[k], (k * blocksize) as i64);
        }
    }

    let parts = fm.file_maker();
    assert_eq!(parts.len(), 1);
    assert_eq!(parts[0].start_offset, 50 * blocksize);
    assert_eq!(parts[0].end_offset, 52 * blocksize);
    assert_eq!(parts[0].block_length, blocksize);
    assert_eq!(parts[0].offset, 0);
}

#[test]
fn shifted_content_is_found_at_its_offset() {
    // the candidate holds the target's second block at a different position
    let blocksize = 8usize;
    let target = pseudo_bytes(4 * blocksize);
    let manifest = build_manifest(&target, blocksize, 4, 8, 1);
    let mut fm = session(&manifest);
    // candidate: 8 junk bytes, then blocks 1 and 2 of the target
    let mut candidate = vec![0xEEu8; blocksize];
    candidate.extend_from_slice(&target[blocksize..3 * blocksize]);
    let progress = fm.map_matcher(&candidate);
    assert_eq!(progress, 2 * 100 / 4);
    let map = fm.block_map();
    assert_eq!(map[0], -1);
    assert_eq!(map[1], blocksize as i64);
    assert_eq!(map[2], (2 * blocksize) as i64);
    assert_eq!(map[3], -1);
}

#[test]
fn canonicalization_stabilizes_where_documented() {
    let target = pseudo_bytes(2 * 4);
    let manifest = build_manifest(&target, 4, 4, 4, 1);
    let mut fm = session(&manifest);
    // width 4 is the identity, so a second application changes nothing
    fm.metafile.rsum_bytes = 4;
    let once4 = fm.update_weak_sum(0xDEADBEEF);
    assert_eq!(fm.update_weak_sum(once4), once4);
    // width 2 is stable once the two high bytes are zero
    fm.metafile.rsum_bytes = 2;
    let once2 = fm.update_weak_sum(0x00001234);
    assert_eq!(fm.update_weak_sum(once2), once2);
    // on a full 32-bit value a second application of width 2 reduces again
    let first = fm.update_weak_sum(0x12345678);
    assert_eq!(first, 0x1234);
    assert_eq!(fm.update_weak_sum(first), 0);
}

#[test]
fn remaining_size_formula() {
    let target = pseudo_bytes(250 * 4);
    let manifest = build_manifest(&target, 4, 4, 4, 1);
    let fm = session(&manifest);
    assert_eq!(fm.remaining_size(0), 1000);
    assert_eq!(fm.remaining_size(25), 750);
    assert_eq!(fm.remaining_size(100), 0);
}
