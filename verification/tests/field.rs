use raptorq::gf256::{
    add, alpha_power, inverse, logarithm, multiply, times_power, OCT_EXP, OCT_LOG,
};

#[test]
fn field_addition_is_exclusive_or() {
    assert_eq!(add(0x53, 0xca), 0x99);
    assert_eq!(add(7, 7), 0);
    assert_eq!(add(0, 200), 200);
}

#[test]
fn field_products_have_their_exact_values() {
    assert_eq!(multiply(2, 128), 29);
    assert_eq!(multiply(3, 7), 9);
    assert_eq!(multiply(0x57, 0x13), 224);
    assert_eq!(multiply(200, 100), 79);
    assert_eq!(multiply(255, 255), 226);
    assert_eq!(multiply(1, 77), 77);
    assert_eq!(multiply(0, 77), 0);
    assert_eq!(multiply(77, 0), 0);
}

#[test]
fn field_tables_hold_powers_and_logarithms() {
    assert_eq!(OCT_EXP[0], 1);
    assert_eq!(OCT_EXP[8], 29);
    assert_eq!(OCT_EXP[254], 142);
    assert_eq!(OCT_EXP[255], 1);
    assert_eq!(OCT_EXP[509], 142);
    assert_eq!(OCT_LOG[2], 1);
    assert_eq!(OCT_LOG[29], 8);
    assert_eq!(OCT_LOG[142], 254);
    assert_eq!(alpha_power(9), 58);
    for i in 0..255usize {
        assert_eq!(OCT_LOG[OCT_EXP[i] as usize] as usize, i);
    }
}

#[test]
fn every_nonzero_element_has_its_inverse() {
    assert_eq!(inverse(1), 1);
    assert_eq!(inverse(2), 142);
    for a in 1..=255u8 {
        assert_eq!(multiply(a, inverse(a)), 1);
    }
}

#[test]
fn field_laws_hold_on_all_triples_of_a_sample() {
    let sample = [0u8, 1, 2, 3, 29, 77, 128, 200, 254, 255];
    for &a in sample.iter() {
        for &b in sample.iter() {
            assert_eq!(multiply(a, b), multiply(b, a));
            for &c in sample.iter() {
                assert_eq!(multiply(multiply(a, b), c), multiply(a, multiply(b, c)));
                assert_eq!(multiply(a, add(b, c)), add(multiply(a, b), multiply(a, c)));
            }
        }
    }
}

#[test]
fn products_by_powers_agree_with_products() {
    assert_eq!(logarithm(1), 0);
    assert_eq!(logarithm(2), 1);
    assert_eq!(logarithm(29), 8);
    assert_eq!(times_power(1, 128), 29);
    assert_eq!(times_power(0, 77), 77);
    assert_eq!(times_power(254, 2), 1);
    for l in 0..255u8 {
        for b in [0u8, 1, 2, 99, 255] {
            assert_eq!(times_power(l, b), multiply(alpha_power(l as usize), b));
        }
    }
    for a in 1..=255u8 {
        assert_eq!(alpha_power(logarithm(a) as usize), a);
    }
}
