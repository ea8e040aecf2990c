use raptorq::matrix::{hdpc_row, ldpc_row, lt_row};
use raptorq::params::{prime, prime_from, symbols_for, BlockParams};
use raptorq::rand::{deg, rand, tuple, Tuple};
use raptorq::tables::{DEGREE_BOUND, MAX_K, SIZES, SIZE_K, SIZE_S, SIZE_W, V0, V1, V2, V3};

#[test]
fn random_numbers_have_their_exact_values() {
    assert_eq!(rand(0, 0, u32::MAX), (V0[0] ^ V1[0] ^ V2[0] ^ V3[0]) % u32::MAX);
    assert_eq!(rand(0, 0, 1000), 529);
    assert_eq!(rand(0x01020304, 5, 1048576), 849616);
    assert_eq!(rand(u32::MAX, 255, 997), 168);
    assert_eq!(rand(77, 3, 1), 0);
}

#[test]
fn degrees_follow_the_distribution() {
    assert_eq!(deg(0, 100), 1);
    assert_eq!(deg(5242, 100), 1);
    assert_eq!(deg(5243, 100), 2);
    assert_eq!(deg(529531, 100), 3);
    assert_eq!(deg(1017662, 100), 30);
    assert_eq!(deg(1048575, 100), 30);
    assert_eq!(deg(1048575, 10), 8);
    assert_eq!(deg(0, 3), 1);
    assert_eq!(DEGREE_BOUND[30], 1 << 20);
}

#[test]
fn parameters_of_the_smallest_block() {
    let p = BlockParams::for_symbols(0).unwrap();
    assert_eq!(p, BlockParams { k: 10, j: 254, s: 7, h: 10, w: 17, prime: 11 });
    assert_eq!(BlockParams::for_symbols(10), Some(p));
    assert_eq!(p.intermediate_symbols(), 27);
    assert_eq!(p.pi_symbols(), 10);
}

#[test]
fn parameters_are_those_of_the_next_size() {
    let p = BlockParams::for_symbols(157).unwrap();
    assert_eq!(p, BlockParams { k: 160, j: 814, s: 23, h: 10, w: 173, prime: 23 });
    assert_eq!(BlockParams::for_symbols(11).unwrap().k, 12);
    assert_eq!(BlockParams::for_symbols(2701).unwrap().k, 2701);
    assert_eq!(BlockParams::for_symbols(2701).unwrap().prime, 83);
    assert_eq!(BlockParams::for_symbols(MAX_K + 1), None);
    assert_eq!(BlockParams::for_symbols(u32::MAX), None);
}

#[test]
fn size_table_is_in_order() {
    assert_eq!(SIZE_K.len(), SIZES);
    assert_eq!(SIZE_K[0], 10);
    assert_eq!(SIZE_K[SIZES - 1], MAX_K);
    for i in 1..SIZES {
        assert!(SIZE_K[i - 1] < SIZE_K[i]);
    }
    for i in 0..SIZES {
        assert!(prime(SIZE_S[i]));
        assert!(prime(SIZE_W[i]));
    }
}

#[test]
fn primes_are_found() {
    assert!(!prime(0));
    assert!(!prime(1));
    assert!(prime(2));
    assert!(prime(83));
    assert!(!prime(91));
    assert_eq!(prime_from(10), 11);
    assert_eq!(prime_from(20), 23);
    assert_eq!(prime_from(23), 23);
    assert_eq!(prime_from(0), 2);
    assert_eq!(prime_from(65536), 65536);
}

#[test]
fn symbols_are_counted_rounding_up() {
    assert_eq!(symbols_for(10_000, 64), 157);
    assert_eq!(symbols_for(0, 64), 0);
    assert_eq!(symbols_for(64, 64), 1);
    assert_eq!(symbols_for(65, 64), 2);
    assert_eq!(symbols_for(u64::MAX, 1), u64::MAX);
}

#[test]
fn tuples_have_their_exact_values() {
    let p = BlockParams::for_symbols(10).unwrap();
    assert_eq!(tuple(&p, 0), Tuple { d: 2, a: 4, b: 9, d1: 2, a1: 5, b1: 1 });
    assert_eq!(tuple(&p, 1), Tuple { d: 7, a: 6, b: 12, d1: 2, a1: 1, b1: 3 });
    assert_eq!(tuple(&p, 16777215), Tuple { d: 10, a: 4, b: 3, d1: 2, a1: 2, b1: 5 });
    let q = BlockParams::for_symbols(157).unwrap();
    assert_eq!(tuple(&q, 1), Tuple { d: 2, a: 4, b: 69, d1: 3, a1: 1, b1: 16 });
    assert_eq!(tuple(&q, 10), Tuple { d: 12, a: 169, b: 124, d1: 2, a1: 22, b1: 16 });
    let r = BlockParams::for_symbols(2701).unwrap();
    assert_eq!(tuple(&r, 9), Tuple { d: 16, a: 46, b: 1673, d1: 2, a1: 58, b1: 65 });
}

#[test]
fn tuples_are_a_function_of_size_and_identifier() {
    let p = BlockParams::for_symbols(100).unwrap();
    let q = BlockParams::for_symbols(101).unwrap();
    for x in [0u32, 5, 101, 5000, 16777215] {
        assert_eq!(tuple(&p, x), tuple(&q, x));
        assert_eq!(lt_row(&p, x), lt_row(&q, x));
    }
}

#[test]
fn lt_row_of_the_first_symbol() {
    let p = BlockParams::for_symbols(10).unwrap();
    let row = lt_row(&p, 0);
    let mut want = vec![0u8; 27];
    want[9] = 1;
    want[13] = 1;
    want[17 + 1] = 1;
    want[17 + 6] = 1;
    assert_eq!(row, want);
}

#[test]
fn ldpc_rows_have_the_circulant_shape() {
    let p = BlockParams::for_symbols(10).unwrap();
    let row = ldpc_row(&p, 0);
    assert_eq!(row.len(), 27);
    let mut want = vec![0u8; 27];
    for c in [0usize, 5, 6, 7] {
        want[c] = 1;
    }
    want[10] = 1;
    want[17] = 1;
    want[18] = 1;
    assert_eq!(row, want);
    let last = ldpc_row(&p, 6);
    assert_eq!(last[10 + 6], 1);
    assert_eq!(last[17 + 6], 1);
    assert_eq!(last[17 + 7], 1);
}

#[test]
fn hdpc_rows_end_in_the_identity() {
    let p = BlockParams::for_symbols(10).unwrap();
    for i in 0..10u32 {
        let row = hdpc_row(&p, i);
        assert_eq!(row.len(), 27);
        for j in 0..10usize {
            assert_eq!(row[17 + j], if j == i as usize { 1 } else { 0 });
        }
    }
    assert_eq!(hdpc_row(&p, 0)[16], 1);
    assert_eq!(hdpc_row(&p, 1)[16], 2);
    assert_eq!(hdpc_row(&p, 9)[16], 58);
}
