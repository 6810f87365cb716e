use g_raph::error::ParameterError;
use g_raph::graph::streaming::counting::{self, Counting};
use g_raph::graph::streaming::distinct::zeros;
use g_raph::graph::streaming::sampling::l0_sampling::{KSampler, L0Sampler};
use g_raph::graph::streaming::sparse_recovery::s_sparse::{
    next_power_of_two, rows_for, SparseRecovery,
};
use g_raph::graph::streaming::{Query, Stream};
use g_raph::utils::hash_function::PowerFiniteFieldHasher;
use std::collections::HashMap;

fn large_sparse() -> Option<HashMap<u64, i64>> {
    let mut recovery = SparseRecovery::<PowerFiniteFieldHasher>::init(5000, 100, 1, 100).unwrap();

    (0..90)
        .into_iter()
        .for_each(|token| recovery.feed((token, true)));

    recovery.query()
}

fn large_not_sparse() -> Option<HashMap<u64, i64>> {
    let mut recovery = SparseRecovery::<PowerFiniteFieldHasher>::init(5000, 100, 1, 100).unwrap();

    (0..400)
        .into_iter()
        .for_each(|token| recovery.feed((token, true)));

    recovery.query()
}

#[test]
fn not_sparse_probability() {
    let n = 100;

    let mut incorrect = 0;

    for _ in 0..n {
        let res = large_not_sparse();
        if res.is_some() {
            incorrect += 1;
        }
    }

    let probability = incorrect as f32 / n as f32;
    assert!(probability <= 0.01);
}

#[test]
fn sparse_probability() {
    let n = 100;

    let mut incorrect = 0;

    for _ in 0..n {
        let res = large_sparse();
        if res.is_none() {
            incorrect += 1;
        }
    }

    let probability = incorrect as f32 / n as f32;
    assert!(probability <= 0.01);
}

#[test]
fn s_sparse_test() {
    let mut recovery = SparseRecovery::<PowerFiniteFieldHasher>::init(5000, 100, 1, 100).unwrap();

    (0..400)
        .into_iter()
        .for_each(|token| recovery.feed((token, true)));

    println!("{:?}", recovery.query())
}

#[test]
fn sparse_vector_is_recovered_with_its_weights() {
    let mut recovery = SparseRecovery::<PowerFiniteFieldHasher>::init(5000, 100, 1, 100).unwrap();
    for token in 0..90u64 {
        for _ in 0..=(token % 3) {
            recovery.feed((token * 7, true));
        }
    }
    for token in 0..90u64 {
        if token % 3 == 2 {
            for _ in 0..3 {
                recovery.feed((token * 7, false));
            }
        }
    }
    assert_eq!(recovery.tokens_fed(), 180 + 90);
    let found = recovery.query().unwrap();
    let expected: HashMap<u64, i64> = (0..90u64)
        .filter(|token| token % 3 != 2)
        .map(|token| (token * 7, (token % 3) as i64 + 1))
        .collect();
    assert_eq!(found, expected);
}

#[test]
fn deleted_coordinates_come_back_with_negative_weights() {
    let mut recovery = SparseRecovery::<PowerFiniteFieldHasher>::init(64, 4, 1, 10).unwrap();
    recovery.feed((5, false));
    recovery.feed((5, false));
    recovery.feed((9, true));
    let found = recovery.peek().unwrap();
    assert_eq!(found, [(5, -2), (9, 1)].into_iter().collect());
    recovery.feed((9, false));
    assert_eq!(recovery.query().unwrap(), [(5, -2)].into_iter().collect());
}

#[test]
fn empty_stream_recovers_nothing() {
    let recovery = SparseRecovery::<PowerFiniteFieldHasher>::init(5000, 100, 1, 100).unwrap();
    assert_eq!(recovery.rows(), 14);
    assert_eq!(recovery.query(), None);

    let mut back = SparseRecovery::<PowerFiniteFieldHasher>::init(5000, 100, 1, 100).unwrap();
    back.feed((17, true));
    back.feed((17, false));
    assert_eq!(back.query(), None);
}

#[test]
fn sparsity_is_no_larger_than_the_domain() {
    let small = SparseRecovery::<PowerFiniteFieldHasher>::init(3, 100, 1, 2).unwrap();
    assert_eq!(small.rows(), rows_for(3, 1, 2) as usize);
    assert_eq!(small.rows(), 3);
    let mut recovery = SparseRecovery::<PowerFiniteFieldHasher>::init(1000, 5000, 1, 2).unwrap();
    assert_eq!(recovery.rows(), rows_for(1000, 1, 2) as usize);
    assert_eq!(recovery.rows(), 11);
    recovery.feed((0, true));
    recovery.feed((1, true));
    recovery.feed((999, true));
    assert_eq!(
        recovery.peek(),
        Some([(0, 1), (1, 1), (999, 1)].into_iter().collect())
    );
    let fresh = recovery.renewed();
    assert_eq!(fresh.rows(), 11);
    assert_eq!(fresh.tokens_fed(), 0);
    assert_eq!(fresh.query(), None);
}

#[test]
fn sparsity_zero_has_no_rows() {
    let mut recovery = SparseRecovery::<PowerFiniteFieldHasher>::init(10, 0, 1, 2).unwrap();
    assert_eq!(recovery.rows(), 0);
    recovery.feed((3, true));
    assert_eq!(recovery.query(), None);
}

#[test]
fn parameters_are_checked() {
    assert!(matches!(
        SparseRecovery::<PowerFiniteFieldHasher>::init(0, 5, 1, 100),
        Err(ParameterError::EmptyDomain)
    ));
    assert!(matches!(
        SparseRecovery::<PowerFiniteFieldHasher>::init(10, 5, 0, 100),
        Err(ParameterError::FailureProbability)
    ));
    assert!(matches!(
        SparseRecovery::<PowerFiniteFieldHasher>::init(10, 5, 100, 100),
        Err(ParameterError::FailureProbability)
    ));
    assert!(matches!(
        SparseRecovery::<PowerFiniteFieldHasher>::init(0x20_0001, 5, 1, 100),
        Err(ParameterError::DomainTooLarge)
    ));
    assert!(SparseRecovery::<PowerFiniteFieldHasher>::init(1, 1, 1, 100).is_ok());
}

#[test]
fn rows_are_the_logarithm_rounded_up() {
    assert_eq!(rows_for(100, 1, 100), 14);
    assert_eq!(rows_for(1, 1, 2), 1);
    assert_eq!(rows_for(1, 1, 1), 0);
    assert_eq!(rows_for(0, 1, 100), 0);
    assert_eq!(rows_for(4, 1, 4), 4);
    assert_eq!(rows_for(4, 3, 4), 3);
    assert_eq!(rows_for(u64::MAX, 1, u64::MAX), 128);
    assert_eq!(next_power_of_two(0), 1);
    assert_eq!(next_power_of_two(1), 1);
    assert_eq!(next_power_of_two(5000), 8192);
    assert_eq!(next_power_of_two(8192), 8192);
    assert_eq!(next_power_of_two(1 << 63), 1 << 63);
}

#[test]
fn stream_gives_its_answer_once() {
    let mut stream: Stream<SparseRecovery<PowerFiniteFieldHasher>, Option<HashMap<u64, i64>>> =
        Stream::InStream(SparseRecovery::init(100, 10, 1, 100).unwrap());
    stream.as_stream().feed((42, true));
    stream.as_stream().feed((7, true));
    let answer = stream.query();
    assert_eq!(answer, Some([(42, 1), (7, 1)].into_iter().collect()));
    let kept: Stream<SparseRecovery<PowerFiniteFieldHasher>, Option<HashMap<u64, i64>>> =
        Stream::Queried(answer.clone());
    assert_eq!(kept.query(), answer);
    let direct = SparseRecovery::<PowerFiniteFieldHasher>::init(100, 10, 1, 100).unwrap();
    assert_eq!(Query::query(direct), None);
}

#[test]
fn sampler_finds_the_one_coordinate() {
    let mut sampler = L0Sampler::<PowerFiniteFieldHasher>::init(100).unwrap();
    sampler.feed((37, true));
    sampler.feed((37, true));
    sampler.feed((5, true));
    sampler.feed((5, false));
    assert_eq!(sampler.query(), Some((37, 2)));
}

#[test]
fn sampler_finds_a_coordinate_of_the_stream_or_none() {
    let mut hits = 0;
    for _ in 0..50 {
        let mut sampler = L0Sampler::<PowerFiniteFieldHasher>::init(100).unwrap();
        for j in [3u64, 14, 15, 92, 65, 35] {
            sampler.feed((j, true));
        }
        if let Some((j, weight)) = sampler.query() {
            assert!([3u64, 14, 15, 92, 65, 35].contains(&j));
            assert_eq!(weight, 1);
            hits += 1;
        }
    }
    assert!(hits > 0);
}

#[test]
fn sampler_of_an_empty_stream_finds_nothing() {
    let sampler = L0Sampler::<PowerFiniteFieldHasher>::init(100).unwrap();
    assert_eq!(sampler.query(), None);
    assert!(matches!(
        L0Sampler::<PowerFiniteFieldHasher>::init(0),
        Err(ParameterError::EmptyDomain)
    ));
    assert!(matches!(
        L0Sampler::<PowerFiniteFieldHasher>::init(0x20_0001),
        Err(ParameterError::DomainTooLarge)
    ));
    let one = L0Sampler::<PowerFiniteFieldHasher>::init(1).unwrap();
    assert_eq!(one.query(), None);
}

#[test]
fn several_samplers_find_coordinates_of_the_stream() {
    let mut samplers = KSampler::<PowerFiniteFieldHasher>::init(100, 5).unwrap();
    samplers.feed((42, true));
    samplers.feed((42, true));
    assert_eq!(samplers.query(), vec![42, 42, 42, 42, 42]);
    let none = KSampler::<PowerFiniteFieldHasher>::init(0, 0).unwrap();
    assert_eq!(none.query(), Vec::<u64>::new());
    assert!(KSampler::<PowerFiniteFieldHasher>::init(0, 1).is_err());

    assert_eq!(zeros(0), 0);
    assert_eq!(zeros(1), 0);
    assert_eq!(zeros(8), 3);
    assert_eq!(zeros(12), 2);
    assert_eq!(zeros(127), 0);
    assert_eq!(zeros(96), 5);
}

#[test]
fn morris_counter_advances_only_on_a_zero_draw() {
    assert_eq!(counting::advance(0, 0), 1);
    assert_eq!(counting::advance(3, 0), 4);
    assert_eq!(counting::advance(3, 5), 3);
    assert_eq!(counting::advance(30, 0), 30);
}

#[test]
fn morris_estimate_is_a_power_of_two_less_one() {
    assert_eq!(counting::draws_for(0), 1);
    assert_eq!(counting::draws_for(10), 1024);
    assert_eq!(counting::estimate(0), 0);
    assert_eq!(counting::estimate(1), 1);
    assert_eq!(counting::estimate(5), 31);
    assert_eq!(counting::estimate(30), 1_073_741_823);
}

#[test]
fn morris_of_an_empty_stream_is_zero() {
    let stream: Vec<(i32, i32)> = Vec::new();
    assert_eq!(stream.morris(), 0);
}

#[test]
fn morris_of_a_stream_is_bounded_by_its_length() {
    let stream: Vec<(i32, i32)> = (0..100).map(|token| (token, 1)).collect();
    let count = stream.morris();
    // the first token always advances the counter
    assert!(count >= 1);
    assert!((count + 1).count_ones() == 1);
    assert!(count < (1 << 30));
}
