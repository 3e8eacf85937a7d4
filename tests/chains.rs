use tmto_tables::chain::build_chain;
use tmto_tables::reduction::{encode_le, hash_reduce, read_le_word, reduce, DOMAIN};

fn counting_digest() -> Vec<u8> {
    (0u8..32).collect()
}

#[test]
fn domain_is_two_pow_38_minus_one() {
    assert_eq!(DOMAIN, (1u64 << 38) - 1);
    assert_eq!(DOMAIN, 274877906943);
}

#[test]
fn encode_le_orders_bytes_least_significant_first() {
    assert_eq!(encode_le(0x0102030405060708), vec![8, 7, 6, 5, 4, 3, 2, 1]);
    assert_eq!(encode_le(0), vec![0; 8]);
}

#[test]
fn read_le_word_reads_eight_bytes() {
    let d = counting_digest();
    assert_eq!(read_le_word(&d, 0), 0x0706050403020100);
    assert_eq!(read_le_word(&d, 24), 0x1f1e1d1c1b1a1918);
}

#[test]
fn reduce_exact_values() {
    let d = counting_digest();
    assert_eq!(reduce(&d, 0), 33412302598);
    assert_eq!(reduce(&d, 1), 16706151299);
    assert_eq!(reduce(&d, 63), 15082881537);
    assert_eq!(reduce(&d, 64), 7541440768);
    assert_eq!(reduce(&d, 65), 3770720384);
    assert_eq!(reduce(&d, 130), 4041265344);
    assert_eq!(reduce(&d, 200), 25866634565);
    assert_eq!(reduce(&d, 255), 66824605197);
}

#[test]
fn reduce_maps_all_ones_to_zero() {
    let d = vec![0xffu8; 32];
    assert_eq!(reduce(&d, 0), 0);
    for r in 0..=255u8 {
        assert!(reduce(&d, r) < DOMAIN);
    }
}

#[test]
fn hash_reduce_exact_value() {
    assert_eq!(hash_reduce(0, 1), 272860257297);
    assert_eq!(hash_reduce(42, 64), 213616307970);
}

#[test]
fn chain_exact_values() {
    assert_eq!(build_chain(0, 1, 5), 123452299537);
    assert_eq!(build_chain(12345, 7, 3), 268747178885);
    assert_eq!(build_chain(DOMAIN - 1, 255, 2), 213976391314);
    assert_eq!(build_chain(42, 0, 4), 89631660592);
}

#[test]
fn chain_is_deterministic() {
    for &(x, r, c) in &[(0u64, 1u8, 5u64), (987654321, 200, 17), (DOMAIN - 1, 255, 3)] {
        assert_eq!(build_chain(x, r, c), build_chain(x, r, c));
    }
}

#[test]
fn chain_of_no_column_ends_at_start() {
    for &x in &[0u64, 1, 123456789, DOMAIN - 1, DOMAIN, u64::MAX] {
        for &r in &[0u8, 1, 128, 255] {
            assert_eq!(build_chain(x, r, 0), x);
        }
    }
}

#[test]
fn chain_values_stay_in_domain() {
    for &x in &[0u64, 5, DOMAIN - 1] {
        for r in [0u8, 1, 63, 64, 127, 192, 255] {
            let mut v = x;
            for _ in 0..6 {
                v = hash_reduce(v, r);
                assert!(v < DOMAIN);
            }
            assert_eq!(build_chain(x, r, 6), v);
        }
    }
}
