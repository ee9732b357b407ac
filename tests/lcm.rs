use ads_rs::{lcm, lcm_many};

#[test]
fn lcm_many_works() {
    // arrange
    let test_suits = [
        // Empty array
        (vec![], 0),
        // Single element
        (vec![223], 223),
        // Relative prime numbers
        (vec![1, 2, 3, 4, 5], 120),
        // Regular case
        (vec![8, 24, 156, 36], 269568),
        // All zeros
        (vec![0, 0, 0, 0], 0),
    ];

    // act
    let result: Vec<u64> = test_suits.iter().map(|t| lcm_many(&t.0)).collect();

    // assert
    for i in 0..test_suits.len() {
        assert_eq!(test_suits[i].1, result[i]);
    }
}

#[test]
fn lcm_many_examples() {
    assert_eq!(lcm_many(&[42, 8, 144]), 24192);
    assert_eq!(lcm_many(&[89, 144, 233, 377, 610]), 686719856160);
    assert_eq!(lcm_many(&[25, 105, 235, 100]), 12337500);
}

#[test]
fn lcm_many_empty_single_and_zeros() {
    assert_eq!(lcm_many(&[]), 0);
    assert_eq!(lcm_many(&[25]), 25);
    assert_eq!(lcm_many(&[0]), 0);
    assert_eq!(lcm_many(&[0, 0, 0, 0]), 0);
}

#[test]
fn lcm_many_is_common_multiple() {
    let elems = [42u64, 8, 144];
    let m = lcm_many(&elems);
    for e in elems.iter() {
        assert_eq!(m % e, 0);
    }
    let elems = [0u64, 6, 10];
    assert_eq!(lcm_many(&elems), 0);
}

#[test]
fn lcm_pairs() {
    assert_eq!(lcm(42, 144), 1008);
    assert_eq!(lcm(377, 610), 229970);
    assert_eq!(lcm(105, 25), 525);
    assert_eq!(lcm(0, 7), 0);
    assert_eq!(lcm(7, 0), 0);
}

#[test]
fn lcm_zero_zero() {
    assert_eq!(lcm(0, 0), 0);
}

#[test]
fn lcm_pair_is_least() {
    let (a, b) = (12u64, 18u64);
    let m = lcm(a, b);
    assert_eq!(m, 36);
    for k in 1..m {
        assert!(k % a != 0 || k % b != 0);
    }
    assert_eq!(lcm(a, b), lcm_many(&[a, b]));
}

#[test]
fn lcm_wraps_beyond_64_bits() {
    let a = u64::MAX;
    let b = u64::MAX - 1;
    assert_eq!(lcm(a, b), a.wrapping_mul(b));
    assert_eq!(lcm_many(&[a, b]), a.wrapping_mul(b));
    assert_eq!(lcm_many(&[1 << 40, 1 << 40, 1 << 40]), 0);
}
