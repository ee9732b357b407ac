use ads_rs::{extended_gcd, gcd, gcd_many};

#[test]
fn extended_gcd_works() {
    // arrange
    let test_suits = [
        // Zero rhs
        (123, 0, (123, 1, 0)),
        // Zero lhs
        (0, 123, (123, 0, 1)),
        // Regular case
        (2048, 48, (16, -1, 43)),
        // Relative prime
        (2052, 617, (1, 132, -439)),
        // Zero lhs and rhs
        (0, 0, (0, 1, 0)),
    ];

    // act
    let result: Vec<(u64, i64, i64)> = test_suits.iter().map(|t| extended_gcd(t.0, t.1)).collect();

    // assert
    for i in 0..test_suits.len() {
        assert_eq!(test_suits[i].2, result[i]);
    }
}

#[test]
fn gcd_many_works() {
    // arrange
    let test_suits = [
        // Empty array
        (vec![], 0),
        // Single element
        (vec![223], 223),
        // Relative prime numbers
        (vec![1, 2, 3, 4, 5], 1),
        // Regular case
        (vec![8, 24, 156, 36], 4),
        // All zeros
        (vec![0, 0, 0, 0], 0),
    ];

    // act
    let result: Vec<u64> = test_suits.iter().map(|t| gcd_many(&t.0)).collect();

    // assert
    for i in 0..test_suits.len() {
        assert_eq!(test_suits[i].1, result[i]);
    }
}

#[test]
fn gcd_many_examples() {
    assert_eq!(gcd_many(&[42, 8, 144]), 2);
    assert_eq!(gcd_many(&[89, 144, 233, 377, 610]), 1);
    assert_eq!(gcd_many(&[25, 105, 235, 100]), 5);
}

#[test]
fn gcd_many_empty_and_single() {
    assert_eq!(gcd_many(&[]), 0);
    assert_eq!(gcd_many(&[25]), 25);
    assert_eq!(gcd_many(&[0]), 0);
    assert_eq!(gcd_many(&[u64::MAX]), u64::MAX);
}

#[test]
fn gcd_many_zeros_among_elements() {
    assert_eq!(gcd_many(&[0, 12, 0, 18]), 6);
    assert_eq!(gcd_many(&[7, 0]), 7);
    assert_eq!(gcd_many(&[0, 0, 9]), 9);
}

#[test]
fn gcd_many_divides_every_element() {
    let elems = [360u64, 840, 1260, 2100];
    let g = gcd_many(&elems);
    assert_eq!(g, 60);
    for e in elems.iter() {
        assert_eq!(e % g, 0);
    }
    // no larger number divides them all
    for d in (g + 1)..=360 {
        assert!(elems.iter().any(|e| e % d != 0));
    }
}

#[test]
fn gcd_pairs() {
    assert_eq!(gcd(42, 144), 6);
    assert_eq!(gcd(377, 610), 1);
    assert_eq!(gcd(105, 25), 5);
    assert_eq!(gcd(0, 17), 17);
    assert_eq!(gcd(17, 0), 17);
}

#[test]
fn gcd_zero_zero() {
    assert_eq!(gcd(0, 0), 0);
}

#[test]
fn gcd_shared_powers_of_two() {
    assert_eq!(gcd(1 << 40, 3 << 20), 1 << 20);
    assert_eq!(gcd(u64::MAX, u64::MAX), u64::MAX);
    assert_eq!(gcd(1 << 63, 1 << 63), 1 << 63);
    assert_eq!(gcd(u64::MAX, 1 << 63), 1);
    assert_eq!(gcd(12, 18), gcd(18, 12));
}

#[test]
fn extended_gcd_examples() {
    assert_eq!(extended_gcd(30, 20), (10, 1, -1));
    assert_eq!(extended_gcd(15, 35), (5, -2, 1));
    assert_eq!(extended_gcd(161, 28), (7, -1, 6));
}

#[test]
fn extended_gcd_zero_zero() {
    assert_eq!(extended_gcd(0, 0), (0, 1, 0));
}

#[test]
fn extended_gcd_bezout_identity() {
    let pairs = [
        (30u64, 20u64),
        (2052, 617),
        (1, 1),
        (u64::MAX, 1),
        (1, u64::MAX),
        (u64::MAX, u64::MAX - 1),
        (12_200_160_415_121_876_738, 7_540_113_804_746_346_429),
        (1 << 63, 3),
    ];
    for (a, b) in pairs.iter() {
        let (g, x, y) = extended_gcd(*a, *b);
        assert_eq!(g, gcd(*a, *b));
        assert_eq!(x as i128 * *a as i128 + y as i128 * *b as i128, g as i128);
    }
}
