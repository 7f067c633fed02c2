use binary_bits::bits;
use binary_bits::bits::{
    and, assert_same_number_of_bits, bits_to_number, not, number_to_bits, or, xor, zero_extend_size,
};

#[test]
fn test_bits_to_number() {
    assert_eq!(bits_to_number(vec![0, 0, 0, 0]), 0);
    assert_eq!(bits_to_number(vec![0, 0, 0, 1]), 1);
    assert_eq!(bits_to_number(vec![0, 0, 1, 0]), 2);
    assert_eq!(bits_to_number(vec![0, 0, 1, 1]), 3);
    assert_eq!(bits_to_number(vec![0, 1, 0, 0]), 4);
    assert_eq!(bits_to_number(vec![0, 1, 0, 1]), 5);
    assert_eq!(bits_to_number(vec![0, 1, 1, 0]), 6);
    assert_eq!(bits_to_number(vec![0, 1, 1, 1]), 7);
    assert_eq!(bits_to_number(vec![1, 0, 0, 0]), 8);
    assert_eq!(bits_to_number(vec![1, 0, 0, 1]), 9);
    assert_eq!(bits_to_number(vec![1, 0, 1, 0]), 10);
    assert_eq!(bits_to_number(vec![1, 0, 1, 1]), 11);
    assert_eq!(bits_to_number(vec![1, 1, 0, 0]), 12);
    assert_eq!(bits_to_number(vec![1, 1, 0, 1]), 13);
    assert_eq!(bits_to_number(vec![1, 1, 1, 0]), 14);
    assert_eq!(bits_to_number(vec![1, 1, 1, 1]), 15);
}

#[test]
fn test_number_to_bits() {
    assert_eq!(number_to_bits(0), vec![0]);
    assert_eq!(number_to_bits(1), vec![1]);
    assert_eq!(number_to_bits(2), vec![1, 0]);
    assert_eq!(number_to_bits(3), vec![1, 1]);
    assert_eq!(number_to_bits(4), vec![1, 0, 0]);
    assert_eq!(number_to_bits(5), vec![1, 0, 1]);
    assert_eq!(number_to_bits(6), vec![1, 1, 0]);
    assert_eq!(number_to_bits(7), vec![1, 1, 1]);
    assert_eq!(number_to_bits(8), vec![1, 0, 0, 0]);
    assert_eq!(number_to_bits(9), vec![1, 0, 0, 1]);
    assert_eq!(number_to_bits(10), vec![1, 0, 1, 0]);
    assert_eq!(number_to_bits(11), vec![1, 0, 1, 1]);
    assert_eq!(number_to_bits(12), vec![1, 1, 0, 0]);
    assert_eq!(number_to_bits(13), vec![1, 1, 0, 1]);
    assert_eq!(number_to_bits(14), vec![1, 1, 1, 0]);
    assert_eq!(number_to_bits(15), vec![1, 1, 1, 1]);
}

#[test]
fn test_assert_same_number_of_bits() {
    assert_eq!(assert_same_number_of_bits(vec![0], vec![0]), true);
    assert_eq!(assert_same_number_of_bits(vec![0, 1], vec![0]), false);
}

#[test]
fn test_and() {
    assert_eq!(and(vec![1, 0, 1, 1], vec![1, 0, 0, 1]), vec![1, 0, 0, 1]);
    assert_eq!(and(vec![1, 1, 1, 1], vec![0, 0, 0, 0]), vec![0, 0, 0, 0]);
    assert_eq!(and(vec![0, 0, 0, 0], vec![1, 1, 1, 1]), vec![0, 0, 0, 0]);
    assert_eq!(and(vec![1, 1, 1, 1], vec![1, 1, 1, 1]), vec![1, 1, 1, 1]);
    assert_eq!(and(vec![0, 0, 0, 0], vec![0, 0, 0, 0]), vec![0, 0, 0, 0]);
}

#[test]
fn test_or() {
    assert_eq!(or(vec![1, 0, 1, 1], vec![1, 0, 0, 1]), vec![1, 0, 1, 1]);
    assert_eq!(or(vec![1, 1, 1, 1], vec![0, 0, 0, 0]), vec![1, 1, 1, 1]);
    assert_eq!(or(vec![0, 0, 0, 0], vec![1, 1, 1, 1]), vec![1, 1, 1, 1]);
    assert_eq!(or(vec![1, 1, 1, 1], vec![1, 1, 1, 1]), vec![1, 1, 1, 1]);
    assert_eq!(or(vec![0, 0, 0, 0], vec![0, 0, 0, 0]), vec![0, 0, 0, 0]);
}

#[test]
fn test_xor() {
    assert_eq!(xor(vec![1, 0, 1, 1], vec![1, 0, 0, 1]), vec![0, 0, 1, 0]);
    assert_eq!(xor(vec![1, 1, 1, 1], vec![0, 0, 0, 0]), vec![1, 1, 1, 1]);
    assert_eq!(xor(vec![0, 0, 0, 0], vec![1, 1, 1, 1]), vec![1, 1, 1, 1]);
    assert_eq!(xor(vec![1, 1, 1, 1], vec![1, 1, 1, 1]), vec![0, 0, 0, 0]);
    assert_eq!(xor(vec![0, 0, 0, 0], vec![0, 0, 0, 0]), vec![0, 0, 0, 0]);
}

#[test]
fn test_not() {
    assert_eq!(not(vec![1, 0, 1, 1]), vec![0, 1, 0, 0]);
    assert_eq!(not(vec![1, 1, 1, 1]), vec![0, 0, 0, 0]);
    assert_eq!(not(vec![0, 0, 0, 0]), vec![1, 1, 1, 1]);
}

#[test]
fn test_zero_extend_size() {
    assert_eq!(zero_extend_size(&vec![1], 4), vec![0, 0, 0, 0, 1]);
    assert_eq!(zero_extend_size(&vec![1, 1], 4), vec![0, 0, 0, 0, 1, 1]);
    assert_eq!(zero_extend_size(&vec![1, 0, 1], 4), vec![0, 0, 0, 0, 1, 0, 1]);
}

#[test]
fn test_add() {
    assert_eq!(bits::add(vec![1], vec![1]), vec![1, 0]);
    assert_eq!(bits::add(vec![1, 1, 1], vec![1, 0, 1, 0, 0]), vec![0, 1, 1, 0, 1, 1]);
    assert_eq!(bits::add(vec![1, 0, 0], vec![1, 0, 0, 0, 0]), vec![0, 1, 0, 1, 0, 0]);
}
