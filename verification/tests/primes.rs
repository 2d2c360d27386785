use rpn::sieve;

#[test]
fn sieve_small() {
    assert_eq!(sieve(7), vec![2, 3, 5]);
    assert_eq!(sieve(2), vec![]);
    assert_eq!(sieve(3), vec![2]);
}

#[test]
fn sieve_thirty() {
    assert_eq!(sieve(30), vec![2, 3, 5, 7, 11, 13, 17, 19, 23, 29]);
}

#[test]
fn sieve_boundary_is_exclusive() {
    assert_eq!(sieve(13), vec![2, 3, 5, 7, 11]);
    assert_eq!(sieve(14), vec![2, 3, 5, 7, 11, 13]);
}

#[test]
fn sieve_square_bound() {
    assert_eq!(sieve(25), vec![2, 3, 5, 7, 11, 13, 17, 19, 23]);
    assert_eq!(sieve(26), vec![2, 3, 5, 7, 11, 13, 17, 19, 23]);
}
