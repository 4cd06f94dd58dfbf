use aoc2023::oasis::get_next_sequence_value;

#[test]
fn next_values() {
    assert_eq!(get_next_sequence_value(&vec![0, 3, 6, 9, 12, 15], false), Some(18));
    assert_eq!(get_next_sequence_value(&vec![1, 3, 6, 10, 15, 21], false), Some(28));
    assert_eq!(get_next_sequence_value(&vec![10, 13, 16, 21, 30, 45], false), Some(68));
}

#[test]
fn previous_values() {
    assert_eq!(get_next_sequence_value(&vec![0, 3, 6, 9, 12, 15], true), Some(-3));
    assert_eq!(get_next_sequence_value(&vec![1, 3, 6, 10, 15, 21], true), Some(0));
    assert_eq!(get_next_sequence_value(&vec![10, 13, 16, 21, 30, 45], true), Some(5));
}

#[test]
fn constant_and_single_sequences() {
    assert_eq!(get_next_sequence_value(&vec![4, 4, 4], false), Some(4));
    assert_eq!(get_next_sequence_value(&vec![7], true), Some(7));
}

#[test]
fn overflowing_sequences() {
    assert_eq!(get_next_sequence_value(&vec![i64::MIN, i64::MAX], false), None);
    assert_eq!(get_next_sequence_value(&vec![0, i64::MAX], false), None);
    assert_eq!(get_next_sequence_value(&vec![0, i64::MAX], true), Some(-i64::MAX));
}
