use g_raph::utils::finite_field::{
    bits, find_primitive, FField, FieldElement, FiniteField, Primitive,
};

fn test_field() -> FiniteField {
    FiniteField::new(23)
}

#[test]
fn test_mod_p_i32_positive() {
    let field = test_field();
    let val = 30;

    let result = field.mod_p_i32(val);

    assert_eq!(result, FieldElement(7))
}

#[test]
fn test_mod_p_i32_negative() {
    let field = test_field();
    let val = -20;

    let result = field.mod_p_i32(val);

    assert_eq!(result, FieldElement(3))
}

#[test]
fn test_power() {
    let field = test_field();
    let base = field.mod_p_i32(-20);

    let result = field.pow(base, 100);

    assert_eq!(result, FieldElement(3))
}

#[test]
fn test_multiply() {
    let field = test_field();
    let v1 = field.mod_p_i32(-20);
    let v2 = field.mod_p_i32(5);

    let result = field.mul(v1, v2);

    assert_eq!(result, FieldElement(15))
}

#[test]
fn test_addition() {
    let field = test_field();
    let v1 = field.mod_p_i32(-20);
    let v2 = field.mod_p_i32(5);

    let result = field.add(v1, v2);

    assert_eq!(result, FieldElement(8))
}

#[test]
fn test_negate_neg() {
    let field = test_field();
    let v1 = field.mod_p_i32(-20);

    let result = field.neg(v1);

    assert_eq!(result, FieldElement(20))
}

#[test]
fn test_negate_pos() {
    let field = test_field();
    let v1 = field.mod_p_i32(20);

    let result = field.neg(v1);

    assert_eq!(result, FieldElement(3))
}

#[test]
fn negative_multiples_of_the_order_are_zero() {
    let field = test_field();
    assert_eq!(field.mod_p_i64(-46), FieldElement(0));
    assert_eq!(field.mod_p_i64(-23), FieldElement(0));
    assert_eq!(field.mod_p_i64(i64::MIN).value(), 20);
    assert_eq!(field.neg(FieldElement(0)), FieldElement(0));
    assert_eq!(field.neg(FieldElement(23)), FieldElement(0));
}

#[test]
fn powers_of_products_are_products_of_powers() {
    for p in [2u64, 3, 23, 1_000_003, 0xFFFF_FFFF_FFFF_FFC5] {
        let field = FiniteField::new(p);
        for (x, y, e) in [(3u64, 5u64, 0u64), (3, 5, 1), (7, 11, 100), (u64::MAX, 12345, 77)] {
            let x = field.mod_p(x);
            let y = field.mod_p(y);
            let left = field.mul(field.pow(x, e), field.pow(y, e));
            let right = field.pow(field.mul(x, y), e);
            assert_eq!(left, right);
        }
    }
}

#[test]
fn power_zero_is_one() {
    let field = test_field();
    assert_eq!(field.pow(FieldElement(0), 0), FieldElement(1));
    assert_eq!(field.pow(FieldElement(5), 0), FieldElement(1));
    assert_eq!(field.pow(FieldElement(5), 1), FieldElement(5));
    assert_eq!(field.pow(FieldElement(5), 2), FieldElement(2));
    assert_eq!(field.pow(FieldElement(5), 22), FieldElement(1));
}

#[test]
fn results_lie_in_the_field() {
    let field = FiniteField::new(0xFFFF_FFFF_FFFF_FFC5);
    let big = FieldElement(u64::MAX);
    assert!(field.add(big, big).value() < field.size());
    assert!(field.mul(big, big).value() < field.size());
    assert!(field.neg(big).value() < field.size());
    assert_eq!(field.add(big, big).value(), 2 * (u64::MAX - field.size()));
}

#[test]
fn add() {
    let field = FField::init(256);
    let x = field.elem(2);
    let y = field.elem(10);

    assert_eq!(field.add(x, y).value, 8);
    assert_eq!(field.mult(x, y).value, 20);
}

#[test]
fn bits_test() {
    assert_eq!(bits(&6), 3_u64)
}

#[test]
fn bits_counts_significant_bits() {
    assert_eq!(bits(&0), 0);
    assert_eq!(bits(&1), 1);
    assert_eq!(bits(&8), 4);
    assert_eq!(bits(&u64::MAX), 64);
}

#[test]
fn find_primitive_test() {
    let expected = [
        (2u8, 7u64),
        (3, 11),
        (4, 25),
        (5, 37),
        (6, 67),
        (7, 185),
        (8, 355),
        (9, 623),
        (10, 1933),
        (11, 2091),
        (12, 4179),
        (13, 14513),
        (14, 16707),
        (15, 32771),
        (16, 66525),
        (17, 131081),
        (18, 262207),
        (19, 524327),
        (20, 1048585),
        (21, 2097157),
        (22, 4194307),
    ];
    for (degree, poly) in expected {
        assert_eq!(find_primitive(&degree), poly);
        assert_eq!(Primitive::of_degree(&degree), Some(poly));
        assert_eq!(bits(&poly), degree as u64 + 1);
    }
    assert_eq!(Primitive::of_degree(&1), None);
    assert_eq!(Primitive::of_degree(&23), None);
}

#[test]
fn products_are_reduced() {
    let field = FField::init(4);
    let x = field.elem(2);
    assert_eq!(field.mult(x, x).value, 3);
    assert_eq!(field.mult(x, field.elem(3)).value, 1);
    assert_eq!(field.elem(4).value, 3);
    assert_eq!(field.elem(7).value, 0);
    assert_eq!(field.reduce(u64::MAX) < 4, true);
}

#[test]
fn every_element_but_zero_has_an_inverse() {
    for order in [4u64, 8, 64, 256] {
        let field = FField::init(order);
        for a in 1..order {
            let mut inverses = 0;
            for b in 1..order {
                let product = field.mult(field.elem(a), field.elem(b)).value;
                assert!(product < order);
                assert_ne!(product, 0);
                if product == 1 {
                    inverses += 1;
                }
            }
            assert_eq!(inverses, 1);
        }
    }
}

#[test]
fn products_agree_with_shift_and_add() {
    let field = FField::init_with_irreducible(256, 355);
    for a in [0u64, 1, 2, 3, 77, 128, 200, 255] {
        for b in [0u64, 1, 2, 5, 16, 99, 254, 255] {
            let mut product = 0u64;
            for i in 0..8 {
                if (b >> i) & 1 == 1 {
                    product ^= a << i;
                }
            }
            for place in (8..16).rev() {
                if (product >> place) & 1 == 1 {
                    product ^= 355 << (place - 8);
                }
            }
            assert_eq!(field.mult(field.elem(a), field.elem(b)).value, product);
        }
    }
}

#[test]
fn samples_are_elements() {
    let field = FField::init(16);
    for _ in 0..200 {
        assert!(field.sample().value < field.size());
    }
}
