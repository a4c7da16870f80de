use reda::compile::double::{product, sum, INFINITY};
use reda::compile::sat_order::{ACTIVITY_LIMIT, ACTIVITY_SCALE, BUMP_GROWTH, FIRST_BUMP};

fn numbers() -> Vec<f64> {
    let mut found = vec![
        0.0,
        f64::from_bits(1),
        f64::from_bits(2),
        f64::from_bits(3),
        f64::MIN_POSITIVE,
        f64::from_bits(f64::MIN_POSITIVE.to_bits() - 1),
        f64::from_bits(f64::MIN_POSITIVE.to_bits() + 1),
        0.5,
        1.0,
        f64::from_bits(1.0f64.to_bits() + 1),
        f64::from_bits(1.0f64.to_bits() - 1),
        1.5,
        9007199254740991.0,
        9007199254740992.0,
        f64::EPSILON,
        f64::EPSILON / 2.0,
        1e100,
        1e-100,
        1.0 / 0.95,
        1e300,
        f64::MAX,
        f64::MAX / 2.0,
        f64::from_bits((f64::MAX / 2.0).to_bits() + 1),
    ];
    let mut state = 0x2545_f491_4f6c_dd1d_u64;
    for _ in 0..400 {
        state ^= state << 13;
        state ^= state >> 7;
        state ^= state << 17;
        found.push(f64::from_bits(state % INFINITY));
        found.push((state >> 11) as f64 / 1e9);
    }
    found
}

#[test]
fn sums_are_those_of_double_precision() {
    let numbers = numbers();
    for &one in &numbers {
        for &other in &numbers {
            let expected = one + other;
            assert_eq!(sum(one.to_bits(), other.to_bits()), expected.to_bits(), "{one:e} + {other:e}");
        }
    }
    assert_eq!(sum(INFINITY, 1.0f64.to_bits()), INFINITY);
    assert_eq!(sum(f64::MAX.to_bits(), f64::MAX.to_bits()), INFINITY);
}

#[test]
fn products_are_those_of_double_precision() {
    let numbers = numbers();
    for &one in &numbers {
        for &other in &numbers {
            let expected = one * other;
            assert_eq!(
                product(one.to_bits(), other.to_bits()),
                expected.to_bits(),
                "{one:e} * {other:e}"
            );
        }
    }
    assert_eq!(product(INFINITY, 1e-100f64.to_bits()), INFINITY);
}

#[test]
fn ties_go_to_the_even_number() {
    let one = 9007199254740992.0f64;
    assert_eq!(sum(one.to_bits(), 1.0f64.to_bits()), one.to_bits());
    assert_eq!(
        sum((one + 2.0).to_bits(), 1.0f64.to_bits()),
        (one + 4.0).to_bits(),
        "the odd one gives way"
    );
}

#[test]
fn the_numbers_that_rank_variables_are_what_they_say() {
    assert_eq!(FIRST_BUMP, 1.0f64.to_bits());
    assert_eq!(BUMP_GROWTH, (1.0f64 / 0.95).to_bits());
    assert_eq!(ACTIVITY_LIMIT, 1e100f64.to_bits());
    assert_eq!(ACTIVITY_SCALE, 1e-100f64.to_bits());
}

#[test]
fn a_bump_grows_past_the_limit_in_as_many_steps_as_in_double_precision() {
    let (mut bits, mut number) = (FIRST_BUMP, 1.0f64);
    let mut steps = 0;
    while number <= 1e100 {
        assert!(bits <= ACTIVITY_LIMIT);
        bits = product(bits, BUMP_GROWTH);
        number *= 1.0 / 0.95;
        steps += 1;
        assert_eq!(bits, number.to_bits());
    }
    assert!(bits > ACTIVITY_LIMIT);
    assert_eq!(steps, 4490);
    assert_eq!(product(bits, ACTIVITY_SCALE), (number * 1e-100).to_bits());
}
