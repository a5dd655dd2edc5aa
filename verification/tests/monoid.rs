use computational_fundamentals::algebraic_composability::Monoid;

#[test]
fn test_verify_algebraic_laws() {
    let sum_monoid = Monoid::new(0, |a, b| a + b);
    let sum_values = vec![1, 2, 3, 4, 5];
    let sum_identity = sum_monoid.check_identity_law(&sum_values);
    let sum_associativity = sum_monoid.check_associativity_law(&sum_values);
    assert!(sum_identity, "Sum monoid should satisfy the identity law");
    assert!(sum_associativity, "Sum monoid should satisfy the associativity law");

    let list_monoid = Monoid::new(Vec::<i32>::new(), |mut a, mut b| { a.append(&mut b); a });
    let list_values = vec![vec![1], vec![2, 3], vec![4, 5, 6]];
    let list_identity = list_monoid.check_identity_law(&list_values);
    let list_associativity = list_monoid.check_associativity_law(&list_values);
    assert!(list_identity, "List monoid should satisfy the identity law");
    assert!(list_associativity, "List monoid should satisfy the associativity law");
}

#[test]
fn subtraction_breaks_both_laws() {
    let difference = Monoid::new(0i64, |a: i64, b: i64| a - b);
    assert_eq!(difference.identity(), 0);
    assert!(!difference.check_identity_law(&[1, 2, 3]));
    assert!(difference.check_identity_law(&[0, 0]));
    assert!(!difference.check_associativity_law(&[1, 2, 3]));
    assert!(difference.check_associativity_law(&[5, 7, 0]));
    assert!(difference.check_associativity_law(&[1, 2]));
    assert!(difference.check_identity_law(&[]));
}

#[test]
fn wrong_identity_is_found() {
    let product = Monoid::new(0u32, |a: u32, b: u32| a * b);
    assert!(!product.check_identity_law(&[1, 2]));
    assert!(product.check_associativity_law(&[2, 3, 4, 5]));
    assert_eq!((product.operation)(6, 7), 42);
}
