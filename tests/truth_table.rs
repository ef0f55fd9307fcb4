use truth_tables::decode_permutation_str;
use truth_tables::get_bit_permutations;

#[test]
fn test_get_bit_permutations() {
    assert_eq!(get_bit_permutations(0), vec![0b0000]);
    assert_eq!(get_bit_permutations(1), vec![0b0000, 0b0001]);
    assert_eq!(get_bit_permutations(2), vec![0b0000, 0b0001, 0b0010, 0b0011]);
    assert_eq!(get_bit_permutations(3), vec![0b0000, 0b0001, 0b0010, 0b0011, 0b0100, 0b0101, 0b0110, 0b0111]);
    assert_eq!(get_bit_permutations(4), vec![0b0000, 0b0001, 0b0010, 0b0011, 0b0100, 0b0101, 0b0110, 0b0111, 0b1000, 0b1001, 0b1010, 0b1011, 0b1100, 0b1101, 0b1110, 0b1111]);
}

#[test]
fn test_decode_permutations() {
    assert_eq!(decode_permutation_str("01"), 0b0000);
    assert_eq!(decode_permutation_str("11"), 0b0001);
    assert_eq!(decode_permutation_str("101"), 0b0001);
    assert_eq!(decode_permutation_str("111"), 0b0011);
    assert_eq!(decode_permutation_str("011"), 0b0010);
    assert_eq!(decode_permutation_str("1001"), 0b0001);
    assert_eq!(decode_permutation_str("1011"), 0b0101);
    assert_eq!(decode_permutation_str("1101"), 0b0011);
    assert_eq!(decode_permutation_str("1111"), 0b0111);
    assert_eq!(decode_permutation_str("10001"), 0b0001);
    assert_eq!(decode_permutation_str("10011"), 0b1001);
    assert_eq!(decode_permutation_str("10101"), 0b0101);
    assert_eq!(decode_permutation_str("10111"), 0b1101);
    assert_eq!(decode_permutation_str("11001"), 0b0011);
    assert_eq!(decode_permutation_str("11011"), 0b1011);
    assert_eq!(decode_permutation_str("11101"), 0b0111);
    assert_eq!(decode_permutation_str("11111"), 0b1111);
}
