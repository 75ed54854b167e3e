use zsync_core::meta_file::{MetaFile, MetaFileError};

fn manifest_text(header: &str, body: &[u8]) -> Vec<u8> {
    let mut v = header.as_bytes().to_vec();
    v.extend_from_slice(body);
    v
}

const GOOD_HEADER: &str = "zsync: 0.6.2\n\
Filename: grad_sample.pbo\n\
MTime: Wed, 18 Feb 2015 23:16:09 GMT\n\
Blocksize: 4\n\
Length: 10\n\
Hash-Lengths: 1,4,3\n\
URL: http://example/sample\n\
SHA-1: abc123\n\
\n";

fn good_body() -> Vec<u8> {
    // three blocks, each 4 weak bytes + 3 strong bytes
    vec![
        1, 2, 3, 4, 0xAA, 0xBB, 0xCC, //
        5, 6, 7, 8, 0xDD, 0xEE, 0xFF, //
        9, 10, 11, 12, 0x01, 0x02, 0x03,
    ]
}

#[test]
fn parses_header_fields() {
    let data = manifest_text(GOOD_HEADER, &good_body());
    let mut mf = MetaFile::new();
    assert!(mf.parse_zsync(&data).is_ok());
    assert_eq!(mf.zsync, b"0.6.2".to_vec());
    assert_eq!(mf.filename, b"grad_sample.pbo".to_vec());
    // Wed, 18 Feb 2015 23:16:09 GMT
    assert_eq!(mf.m_time, 1424301369);
    assert_eq!(mf.blocksize, 4);
    assert_eq!(mf.length, 10);
    assert_eq!(mf.seq_num, 1);
    assert_eq!(mf.rsum_bytes, 4);
    assert_eq!(mf.checksum_bytes, 3);
    assert_eq!(mf.block_num, 3);
    assert_eq!(mf.url, b"http://example/sample".to_vec());
    assert_eq!(mf.sha1, b"abc123".to_vec());
}

#[test]
fn stored_weak_bytes_are_reassembled() {
    let data = manifest_text(GOOD_HEADER, &good_body());
    let mut mf = MetaFile::new();
    assert!(mf.parse_zsync(&data).is_ok());
    // record bytes 1 2 3 4 assemble as bytes 2 3 0 1 of the value
    let mut probe = zsync_core::util::checksumpair::ChecksumPair::new();
    probe.weak = 0x03040102;
    probe.strong = vec![0xAA, 0xBB, 0xCC];
    let hit = mf.hashtable.find_match(&probe);
    assert!(hit.is_some());
    let entry = hit.unwrap();
    assert_eq!(entry.seq, 0);
    assert_eq!(entry.offset, 0);
    assert_eq!(entry.length, 4);
    let mut probe2 = zsync_core::util::checksumpair::ChecksumPair::new();
    probe2.weak = 0x0708_0506;
    probe2.strong = vec![0xDD, 0xEE, 0xFF];
    let hit2 = mf.hashtable.find_match(&probe2);
    assert_eq!(hit2.unwrap().offset, 4);
}

#[test]
fn unknown_keys_and_odd_lines_are_ignored() {
    let header = "zsync: 0.6.2\n\
Producer: someone\n\
this line has no separator\n\
Blocksize: 4\n\
Length: 4\n\
Hash-Lengths: 1,4,2\n\
\n";
    let body = vec![1u8, 2, 3, 4, 9, 9];
    let data = manifest_text(header, &body);
    let mut mf = MetaFile::new();
    assert!(mf.parse_zsync(&data).is_ok());
    assert_eq!(mf.block_num, 1);
}

#[test]
fn bad_timestamp_is_fatal() {
    let header = "MTime: not a date\nBlocksize: 4\nLength: 4\nHash-Lengths: 1,4,2\n\n";
    let data = manifest_text(header, &[1, 2, 3, 4, 9, 9]);
    let mut mf = MetaFile::new();
    assert_eq!(mf.parse_zsync(&data), Err(MetaFileError::BadTimestamp));
}

#[test]
fn missing_blocksize_is_fatal() {
    let header = "Length: 4\nHash-Lengths: 1,4,2\n\n";
    let data = manifest_text(header, &[1, 2, 3, 4, 9, 9]);
    let mut mf = MetaFile::new();
    assert_eq!(mf.parse_zsync(&data), Err(MetaFileError::BadBlockSize));
}

#[test]
fn unparsable_blocksize_counts_as_zero() {
    let header = "Blocksize: four\nLength: 4\nHash-Lengths: 1,4,2\n\n";
    let data = manifest_text(header, &[1, 2, 3, 4, 9, 9]);
    let mut mf = MetaFile::new();
    assert_eq!(mf.parse_zsync(&data), Err(MetaFileError::BadBlockSize));
}

#[test]
fn unsupported_hash_lengths_are_fatal() {
    let header = "Blocksize: 4\nLength: 4\nHash-Lengths: 1,5,2\n\n";
    let data = manifest_text(header, &[1, 2, 3, 4, 5, 9, 9]);
    let mut mf = MetaFile::new();
    assert_eq!(mf.parse_zsync(&data), Err(MetaFileError::BadHashLengths));

    let header2 = "Blocksize: 4\nLength: 4\nHash-Lengths: 1,4,0\n\n";
    let data2 = manifest_text(header2, &[1, 2, 3, 4]);
    let mut mf2 = MetaFile::new();
    assert_eq!(mf2.parse_zsync(&data2), Err(MetaFileError::BadHashLengths));
}

#[test]
fn truncated_body_is_fatal() {
    let data = manifest_text(GOOD_HEADER, &good_body()[..20]);
    let mut mf = MetaFile::new();
    assert_eq!(mf.parse_zsync(&data), Err(MetaFileError::TruncatedChecksums));
}

#[test]
fn zero_length_target_needs_no_body() {
    let header = "Blocksize: 4\nLength: 0\nHash-Lengths: 1,4,2\n\n";
    let data = manifest_text(header, &[]);
    let mut mf = MetaFile::new();
    assert!(mf.parse_zsync(&data).is_ok());
    assert_eq!(mf.block_num, 0);
}

#[test]
fn header_without_blank_line_leaves_empty_body() {
    let header = "Blocksize: 4\nLength: 10\nHash-Lengths: 1,4,3";
    let data = manifest_text(header, &[]);
    let mut mf = MetaFile::new();
    assert_eq!(mf.parse_zsync(&data), Err(MetaFileError::TruncatedChecksums));
}

#[test]
fn whitespace_around_keys_and_values_is_trimmed() {
    let header = "  Blocksize  :   4  \nLength: 8\nHash-Lengths: 1,4,1\n\n";
    let data = manifest_text(header, &[1, 2, 3, 4, 9, 5, 6, 7, 8, 9]);
    let mut mf = MetaFile::new();
    assert!(mf.parse_zsync(&data).is_ok());
    assert_eq!(mf.blocksize, 4);
    assert_eq!(mf.block_num, 2);
}

#[test]
fn parse_decimal_contract_edges() {
    let digits = b"00123".to_vec();
    assert_eq!(zsync_core::meta_file::parse_decimal(&digits, 0, 5), Some(123));
    assert_eq!(zsync_core::meta_file::parse_decimal(&digits, 2, 2), None);
    let mixed = b"12a".to_vec();
    assert_eq!(zsync_core::meta_file::parse_decimal(&mixed, 0, 3), None);
    let huge = b"99999999999999999999999999".to_vec();
    assert_eq!(zsync_core::meta_file::parse_decimal(&huge, 0, huge.len()), None);
}

#[test]
fn default_metafile_is_empty() {
    let mf = MetaFile::default();
    assert_eq!(mf.blocksize, 0);
    assert_eq!(mf.length, 0);
    assert_eq!(mf.block_num, 0);
    let c = mf.clone();
    assert_eq!(c.blocksize, 0);
}
