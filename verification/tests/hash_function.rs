use g_raph::utils::finite_field::FField;
use g_raph::utils::hash_function::{HashFunction, PowerFiniteFieldHasher};
use std::collections::HashMap;

#[test]
fn test_hash_computation() {
    let field = FField::init(4);
    let hash = PowerFiniteFieldHasher::init_a_b(field, field.elem(1), field.elem(1), 4);

    assert!(hash.is_zero(1));
    assert!(!hash.is_zero(0));
    assert!(!hash.is_zero(2));
}

#[test]
fn test_hashb() {
    let field = FField::init(4);
    let hash = PowerFiniteFieldHasher::init_a_b(field, field.elem(1), field.elem(2), 4);

    assert!(hash.is_zero(2));
    assert!(!hash.is_zero(0));
    assert!(!hash.is_zero(1));
}

fn two_universal(n: u64, l: u64) -> Vec<(f32, f32)> {
    let n = n.next_power_of_two();
    let l = l.next_power_of_two();
    let field = FField::init(n);

    let mut results: Vec<_> = (0..n)
        .into_iter()
        .map(|_| HashMap::<(u64, u64), f32>::new())
        .collect();

    for a in 0..n {
        for b in 0..n {
            let (a, b) = (field.elem(a), field.elem(b));
            let hasher = PowerFiniteFieldHasher::init_a_b(field, a, b, l);
            let one = hasher.compute(0);

            for other in 1..n {
                let val = hasher.compute(other);

                *results
                    .get_mut(other as usize)
                    .unwrap()
                    .entry((one, val))
                    .or_default() += 1.0;
            }
        }
    }

    let avgs: Vec<f32> = results
        .iter()
        .map(|map| map.values().into_iter().sum::<f32>() / map.len() as f32)
        .collect();

    let standard_deviations: Vec<f32> = results
        .iter()
        .enumerate()
        .map(|(i, map)| {
            (map.values().into_iter().fold(0_f32, |red, v| {
                if i == 1 {
                    return red;
                }
                red + (*v as f32 - avgs.get(i).unwrap()).powi(2)
            }) / map.len() as f32)
                .sqrt()
        })
        .collect();

    avgs.into_iter().zip(standard_deviations).collect()
}

#[test]
fn close() {
    let res = two_universal(32, 16);
    println!("{:?}", res);
}

#[test]
fn every_pair_of_values_is_hit_equally_often() {
    let n = 16u64;
    let l = 4u64;
    let field = FField::init(n);
    for x in 0..n {
        for y in (x + 1)..n {
            let mut hits: HashMap<(u64, u64), u64> = HashMap::new();
            for a in 0..n {
                for b in 0..n {
                    let hasher =
                        PowerFiniteFieldHasher::init_a_b(field, field.elem(a), field.elem(b), l);
                    *hits.entry((hasher.compute(x), hasher.compute(y))).or_default() += 1;
                }
            }
            assert_eq!(hits.len() as u64, l * l);
            for count in hits.values() {
                assert_eq!(*count, n * n / (l * l));
            }
        }
    }
}

#[test]
fn hashes_are_masked_sums_of_products() {
    let field = FField::init(256);
    let hasher = PowerFiniteFieldHasher::init_a_b(field, field.elem(2), field.elem(5), 16);
    assert_eq!(hasher.compute(10), (20 ^ 5) & 15);
    assert_eq!(hasher.compute(0), 5);
    let one = PowerFiniteFieldHasher::init_a_b(field, field.elem(3), field.elem(200), 1);
    for x in 0..300 {
        assert_eq!(one.compute(x), 0);
        assert!(one.is_zero(x));
    }
}

#[test]
fn random_functions_stay_in_their_range() {
    let hasher = PowerFiniteFieldHasher::init(5000, 256);
    let copy = hasher.random_copy();
    for x in 0..8192 {
        assert!(hasher.compute(x) < 256);
        assert!(copy.compute(x) < 256);
    }
    let small = PowerFiniteFieldHasher::init(0, 2);
    assert!(small.compute(3) < 2);
}
