use g_raph::error::ParameterError;
use g_raph::graph::streaming::sparse_recovery::find_prime_n_n2;
use g_raph::graph::streaming::sparse_recovery::one_sparse::{
    find_prime, prime_bits_of, OneSparseRecovery, OneSparseRecoveryOutput,
};

fn stream() -> Vec<(u64, bool)> {
    vec![
        (0, true),
        (9, true),
        (7, true),
        (6, true),
        (7, true),
        (9, true),
        (7, true),
        (9, false),
        (7, false),
        (9, false),
        (7, false),
        (0, false),
        (7, false),
    ]
}

#[test]
fn test_bertrand_primes() {
    let n = 20;

    let prime = find_prime_n_n2(n);

    assert_eq!(prime, 23)
}

#[test]
fn bertrand_search_gives_the_next_prime_for_a_prime_of_the_list() {
    assert_eq!(find_prime_n_n2(23), 43);
    assert_eq!(find_prime_n_n2(79699), 159389);
    assert_eq!(find_prime_n_n2(100), 43);
    assert_eq!(find_prime_n_n2(5), 3);
    assert_eq!(find_prime_n_n2(u32::MAX), 5222275627);
    assert_eq!(find_prime_n_n2(0), 3);
}

#[test]
fn one_sparse_true_positive() {
    let stream: Vec<(u64, bool)> = stream();

    let mut recover = OneSparseRecovery::init(10).unwrap();

    stream.into_iter().for_each(|token| recover.feed(token));

    let res = recover.query();

    assert_eq!(res, OneSparseRecoveryOutput::VeryLikely(1, 6))
}

#[test]
fn one_sparse_true_zero() {
    let mut stream: Vec<(u64, bool)> = stream();
    stream.push((6, false));

    let mut recover = OneSparseRecovery::init(10).unwrap();

    stream.into_iter().for_each(|token| recover.feed(token));

    let res = recover.query();

    assert_eq!(res, OneSparseRecoveryOutput::Zero)
}

#[test]
fn one_sparse_true_negative() {
    let stream: Vec<(u64, bool)> = vec![
        (0, true),
        (9, true),
        (7, true),
        (6, true),
        (7, true),
        (9, true),
        (7, true),
    ];

    let mut recover = OneSparseRecovery::init(10).unwrap();

    stream.into_iter().for_each(|token| recover.feed(token));

    let res = recover.query();

    assert_eq!(res, OneSparseRecoveryOutput::NotOneSparse)
}

#[test]
fn two_coordinates_are_not_one_sparse() {
    let mut stream: Vec<(u64, bool)> = stream();
    stream.truncate(12);

    let mut recover = OneSparseRecovery::init(10).unwrap();

    stream.into_iter().for_each(|token| recover.feed(token));

    assert_eq!(recover.query(), OneSparseRecoveryOutput::NotOneSparse)
}

#[test]
fn one_coordinate_is_recovered_with_any_base() {
    for r in 0..23 {
        let mut up = OneSparseRecovery::with_base(10, 23, r);
        let mut down = OneSparseRecovery::with_base(10, 23, r);
        for m in 1..=30i64 {
            up.feed((4, true));
            down.feed((4, false));
            assert_eq!(up.peek(), OneSparseRecoveryOutput::VeryLikely(m, 4));
            assert_eq!(down.peek(), OneSparseRecoveryOutput::VeryLikely(-m, 4));
        }
        assert_eq!(up.tokens_fed(), 30);
    }
}

#[test]
fn zero_vector_is_recognised_with_any_base() {
    for r in 0..23 {
        let mut recover = OneSparseRecovery::with_base(10, 23, r);
        assert_eq!(recover.peek(), OneSparseRecoveryOutput::Zero);
        for j in 0..10 {
            recover.feed((j, true));
        }
        for j in (0..10).rev() {
            recover.feed((j, false));
        }
        assert_eq!(recover.query(), OneSparseRecoveryOutput::Zero);
    }
}

#[test]
fn fingerprint_of_another_coordinate_is_refused() {
    // With the base 2 in the field of 23 elements, the coordinates 0 and 2
    // with the weights 1 and 1 have l = 2 and z = 2, which fit the
    // coordinate 1, but p = 1 + 4 = 5 where the coordinate 1 has 2 * 2 = 4.
    let mut recover = OneSparseRecovery::with_base(10, 23, 2);
    recover.feed((0, true));
    recover.feed((2, true));
    assert_eq!(recover.query(), OneSparseRecoveryOutput::NotOneSparse);
}

#[test]
fn false_positive_of_a_small_field() {
    // With the base 1 every power is 1, so p = l and the fingerprint of the
    // coordinates 0 and 2 cannot be told from that of the coordinate 1.
    let mut recover = OneSparseRecovery::with_base(10, 23, 1);
    recover.feed((0, true));
    recover.feed((2, true));
    assert_eq!(recover.query(), OneSparseRecoveryOutput::VeryLikely(2, 1));
}

#[test]
fn weights_of_opposite_sign_are_not_one_sparse() {
    let mut recover = OneSparseRecovery::with_base(10, 23, 5);
    recover.feed((3, true));
    recover.feed((1, false));
    recover.feed((1, false));
    // l = -1 and z = 1: the quotient is negative.
    assert_eq!(recover.query(), OneSparseRecoveryOutput::NotOneSparse);
}

#[test]
fn no_sketch_for_an_empty_or_a_huge_domain() {
    assert!(matches!(
        OneSparseRecovery::init(0),
        Err(ParameterError::EmptyDomain)
    ));
    assert!(matches!(
        OneSparseRecovery::init(0x20_0001),
        Err(ParameterError::DomainTooLarge)
    ));
    assert!(OneSparseRecovery::init(0x20_0000).is_ok());
    let mut one = OneSparseRecovery::init(1).unwrap();
    one.feed((0, true));
    assert_eq!(one.query(), OneSparseRecoveryOutput::VeryLikely(1, 0));
}

#[test]
fn primes_have_the_bits_that_were_asked_for() {
    assert_eq!(prime_bits_of(10), 11);
    assert_eq!(prime_bits_of(2), 4);
    assert_eq!(prime_bits_of(1), 3);
    assert_eq!(prime_bits_of(0), 3);
    assert_eq!(prime_bits_of(3), 6);
    assert_eq!(prime_bits_of(0x20_0000), 64);
    for bits in [3u64, 4, 11, 38, 64] {
        let prime = find_prime(bits).unwrap();
        assert!(prime >= 5);
        assert_eq!(prime % 2, 1);
        assert_eq!(prime >> (bits - 1), 1);
        let small = prime < 1 << 20;
        if small {
            assert!((2..prime).take_while(|d| d * d <= prime).all(|d| prime % d != 0));
        }
    }
    assert_eq!(find_prime(1), None);
    assert_eq!(find_prime(2), None);
}
