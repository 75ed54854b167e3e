use zsync_core::util::checksumpair::{bytes_eq, clone_bytes, ChecksumPair};
use zsync_core::util::configuration::Configuration;
use zsync_core::util::copy::{arr_copy, arr_fill, copy_range};
use zsync_core::util::generator::Generator;
use zsync_core::util::rsum::Rsum;

fn value_of(a: u32, b: u32) -> u32 {
    a + 0x10000 * b
}

#[test]
fn rsum_first_window() {
    let mut r = Rsum::new();
    let buf = vec![1u8, 2, 3, 4];
    r.first(&buf, 0, 4);
    // a = 1+2+3+4 = 10; b = 4*1 + 3*2 + 2*3 + 1*4 = 20
    assert_eq!(r.get_value(), value_of(10, 20));
}

#[test]
fn rsum_roll_matches_fresh_computation() {
    let mut r = Rsum::new();
    let buf = vec![1u8, 2, 3, 4];
    r.first(&buf, 0, 4);
    r.roll(5);
    // window [2,3,4,5]: a = 14; b = 4*2+3*3+2*4+1*5 = 30
    assert_eq!(r.get_value(), value_of(14, 30));
    let mut fresh = Rsum::new();
    let buf2 = vec![2u8, 3, 4, 5];
    fresh.first(&buf2, 0, 4);
    assert_eq!(fresh.get_value(), r.get_value());
}

#[test]
fn rsum_roll_full_cycle() {
    let data = vec![9u8, 8, 7, 6, 5, 4, 3, 2];
    let mut r = Rsum::new();
    r.first(&data, 0, 3);
    for i in 3..data.len() {
        r.roll(data[i]);
    }
    let mut fresh = Rsum::new();
    let tail = vec![5u8, 4, 3, 2];
    fresh.first(&tail, 1, 3);
    assert_eq!(fresh.get_value(), r.get_value());
}

#[test]
fn rsum_check_does_not_touch_window() {
    let mut r = Rsum::new();
    let buf = vec![1u8, 2, 3, 4];
    r.first(&buf, 0, 4);
    let probe = vec![200u8, 201, 202, 203];
    r.check(&probe, 0, 4);
    // accumulators now reflect the probe window (mod 2^16)
    let a: u32 = 200 + 201 + 202 + 203;
    let b: u32 = 4 * 200 + 3 * 201 + 2 * 202 + 203;
    assert_eq!(r.get_value(), value_of(a % 0x10000, b % 0x10000));
}

#[test]
fn rsum_wraparound() {
    let buf = vec![255u8; 300];
    let mut r = Rsum::new();
    r.first(&buf, 0, 300);
    let a: u64 = 255 * 300;
    let mut b: u64 = 0;
    for i in 0..300u64 {
        b += (300 - i) * 255;
    }
    assert_eq!(
        r.get_value(),
        ((a % 0x10000) as u32) + 0x10000 * ((b % 0x10000) as u32)
    );
}

#[test]
fn hash_code_folds_bytes() {
    let mut p = ChecksumPair::new();
    p.weak = 0x12345678;
    // (0x12 + 0x34) = 0x46, (0x56 + 0x78) = 0xCE
    assert_eq!(p.hash_code(), 0x46CE);
}

#[test]
fn hash_code_wraps_bytes() {
    let mut p = ChecksumPair::new();
    p.weak = 0xFF01FF02;
    // (0xFF + 0x01) wraps to 0x00, (0xFF + 0x02) wraps to 0x01
    assert_eq!(p.hash_code(), 0x0001);
}

#[test]
fn pair_equality_is_weak_and_strong() {
    let a = ChecksumPair {
        weak: 7,
        strong: vec![1, 2, 3],
        offset: 0,
        length: 10,
        seq: 0,
    };
    let b = ChecksumPair {
        weak: 7,
        strong: vec![1, 2, 3],
        offset: 999,
        length: 20,
        seq: 5,
    };
    let c = ChecksumPair {
        weak: 7,
        strong: vec![1, 2, 4],
        offset: 0,
        length: 10,
        seq: 0,
    };
    assert!(a == b);
    assert!(a != c);
}

#[test]
fn bytes_helpers() {
    let v = vec![1u8, 2, 3];
    assert!(bytes_eq(&v, &vec![1, 2, 3]));
    assert!(!bytes_eq(&v, &vec![1, 2]));
    assert!(!bytes_eq(&v, &vec![1, 2, 4]));
    assert_eq!(clone_bytes(&v), v);
    assert_eq!(copy_range(&v, 1, 3), vec![2, 3]);
}

#[test]
fn arr_fill_and_copy() {
    let mut dst = vec![9u8; 6];
    arr_fill(&mut dst, 1, 4, 0);
    assert_eq!(dst, vec![9, 0, 0, 0, 9, 9]);

    let src = vec![1u8, 2, 3, 4];
    let mut dst2 = vec![0u8; 4];
    arr_copy(&src, 1, &mut dst2, 0, 3);
    assert_eq!(dst2, vec![2, 3, 4, 0]);

    // a source region wholly past the end reads as zeroes
    let mut dst3 = vec![7u8; 3];
    arr_copy(&src, 10, &mut dst3, 0, 3);
    assert_eq!(dst3, vec![0, 0, 0]);
}

#[test]
fn strong_sum_is_truncated_md4() {
    let mut config = Configuration::new();
    config.block_length = 3;
    config.strong_sum_length = 4;
    let mut gen = Generator::new(config);
    // "abc"
    let buf = vec![0x61u8, 0x62, 0x63];
    let strong = gen.generate_strong_sum(&buf, 0, 3);
    // MD4("abc") = a448017aaf21d8525fc10ae87aa6729d
    assert_eq!(strong, vec![0xA4, 0x48, 0x01, 0x7A]);
}

#[test]
fn strong_sum_of_empty_window() {
    let mut config = Configuration::new();
    config.block_length = 4;
    config.strong_sum_length = 6;
    let mut gen = Generator::new(config);
    let buf = vec![0u8; 4];
    let strong = gen.generate_strong_sum(&buf, 2, 0);
    // MD4("") = 31d6cfe0d16ae931b73c59d7e0c089c0
    assert_eq!(strong, vec![0x31, 0xD6, 0xCF, 0xE0, 0xD1, 0x6A]);
}

#[test]
fn weak_sum_seeds_rolling_window() {
    let mut config = Configuration::new();
    config.block_length = 4;
    config.strong_sum_length = 2;
    let mut gen = Generator::new(config);
    let buf = vec![1u8, 2, 3, 4, 5];
    let w = gen.generate_weak_sum(&buf, 0);
    assert_eq!(w, value_of(10, 20));
    let w2 = gen.generate_roll_sum(5);
    assert_eq!(w2, value_of(14, 30));
}
