use aoc2023::totals::sum_all;

#[test]
fn sums() {
    assert_eq!(sum_all(&vec![]), Some(0));
    assert_eq!(sum_all(&vec![12, 38, 15, 77]), Some(142));
    assert_eq!(sum_all(&vec![i64::MAX, 1]), None);
    assert_eq!(sum_all(&vec![i64::MAX, 1, -1]), None);
    assert_eq!(sum_all(&vec![-5, 2]), Some(-3));
}
