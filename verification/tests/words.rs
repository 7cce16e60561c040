use edge_match::word::Ext;

const SAMPLE: u128 = 0x0f0e0d0c0b0a09080706050403020100;

#[test]
fn as_bytes_lists_low_byte_first() {
    assert_eq!(
        SAMPLE.as_bytes(),
        [0, 1, 2, 3, 4, 5, 6, 7, 8, 9, 10, 11, 12, 13, 14, 15]
    );
    assert_eq!(SAMPLE.as_bytes(), SAMPLE.to_le_bytes());
}

#[test]
fn all_bytes_nonzero_finds_any_zero_byte() {
    let ones: u128 = 0x01010101010101010101010101010101;
    assert!(ones.all_bytes_nonzero());
    assert!(u128::MAX.all_bytes_nonzero());
    assert!(!0u128.all_bytes_nonzero());
    assert!(!SAMPLE.all_bytes_nonzero());
    for i in 0..16 {
        let hole = u128::MAX & !(0xffu128 << (8 * i));
        assert!(!hole.all_bytes_nonzero());
        let low = ones & !(0xffu128 << (8 * i));
        assert!(!low.all_bytes_nonzero());
        let high = (ones << 7) | (0x7fu128 << (8 * i));
        assert!(high.all_bytes_nonzero());
    }
}

#[test]
fn all_bytes_nonzero_agrees_with_a_scan() {
    let mut x: u128 = 0x9e3779b97f4a7c15f39cc0605cedc835;
    for round in 0..2000 {
        x = x.wrapping_mul(0x2545f4914f6cdd1d2545f4914f6cdd1d).wrapping_add(round);
        let mut w = x;
        if round % 3 == 0 {
            w &= !(0xffu128 << (8 * (round % 16)));
        }
        let want = w.to_le_bytes().iter().all(|b| *b != 0);
        assert_eq!(w.all_bytes_nonzero(), want);
    }
}

#[test]
fn swap_nibbles_exchanges_the_halves_of_every_byte() {
    assert_eq!(0x12u128.swap_nibbles(), 0x21);
    assert_eq!(
        SAMPLE.swap_nibbles(),
        0xf0e0d0c0b0a090807060504030201000
    );
    assert_eq!(SAMPLE.swap_nibbles().swap_nibbles(), SAMPLE);
}

#[test]
fn swap_exchanges_two_bytes() {
    assert_eq!(SAMPLE.swap(0, 15), 0x000e0d0c0b0a0908070605040302010f);
    assert_eq!(SAMPLE.swap(3, 4), 0x0f0e0d0c0b0a09080706050304020100);
    assert_eq!(SAMPLE.swap(7, 7), SAMPLE);
    for i in 0..16 {
        for j in 0..16 {
            let mut bytes = SAMPLE.to_le_bytes();
            bytes.swap(i, j);
            assert_eq!(SAMPLE.swap(i, j), u128::from_le_bytes(bytes));
            assert_eq!(SAMPLE.swap(i, j).swap(i, j), SAMPLE);
        }
    }
}
