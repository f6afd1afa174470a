use wave_collapse::bits::nth_set_bit;
use wave_collapse::bits::popcount;

#[test]
fn popcount_empty() {
    assert_eq!(popcount(0), 0);
}

#[test]
fn popcount_full() {
    assert_eq!(popcount(u128::MAX), 128);
}

#[test]
fn popcount_mixed() {
    assert_eq!(popcount(0b1011), 3);
    assert_eq!(popcount(1u128 << 127), 1);
    assert_eq!(popcount((1u128 << 127) | 1), 2);
}

#[test]
fn nth_set_bit_ascending() {
    // set bits of 0b10100 are {2, 4}, enumerated in ascending order
    assert_eq!(nth_set_bit(0b10100, 0), 2);
    assert_eq!(nth_set_bit(0b10100, 1), 4);
    assert_eq!(nth_set_bit(1u128 << 127, 0), 127);
    assert_eq!(nth_set_bit(u128::MAX, 77), 77);
}
