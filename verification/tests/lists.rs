use rpn::dedup;
use rpn::filter;
use rpn::sum;
use rpn::vec_mult;

#[test]
fn test_vec_mult() {
    let a = vec![1, 2, 3];
    let b = vec![3, 4, 5];
    assert_eq!(vec_mult(&a, 2), 12);
    assert_eq!(vec_mult(&b, 5), 60);
}

#[test]
fn sum_adds_everything() {
    assert_eq!(sum(&[1, 2, 3]), 6);
    assert_eq!(sum(&[]), 0);
    assert_eq!(sum(&[-5, 5, 7]), 7);
}

#[test]
fn dedup_keeps_first_instances() {
    assert_eq!(dedup(&vec![1, 2, 1, 3, 2, 4]), vec![1, 2, 3, 4]);
    assert_eq!(dedup(&vec![]), vec![]);
    assert_eq!(dedup(&vec![7, 7, 7]), vec![7]);
}

#[test]
fn filter_keeps_matching_elements() {
    let vs = vec![1, 2, 3, 4, 5, 6];
    let evens = filter(&vs, &|x: i32| x % 2 == 0);
    assert_eq!(evens, vec![2, 4, 6]);
    let none = filter(&vs, &|x: i32| x > 100);
    assert_eq!(none, vec![]);
}

#[test]
fn vec_mult_empty_and_negative() {
    assert_eq!(vec_mult(&vec![], 10), 0);
    assert_eq!(vec_mult(&vec![2, -3], -4), 4);
}
