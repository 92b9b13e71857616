use charsheet::model::{Calculation, Id, Rounding, ValueId};
use charsheet::ErrorKind;

fn value(index: usize) -> ValueId {
    Id::new(index)
}

fn divide(rounding: Rounding, a: i32, b: i32) -> i32 {
    Calculation::constant(a)
        .div(rounding, b)
        .get(&[])
        .unwrap()
}

#[test]
fn constant_evaluates_to_itself() {
    assert_eq!(Calculation::constant(7).get(&[]), Ok(7));
    assert_eq!(Calculation::from(-3).get(&[]), Ok(-3));
}

#[test]
fn value_evaluates_to_its_input() {
    let calc = Calculation::value(value(4));
    assert_eq!(calc.values().len(), 1);
    assert_eq!(calc.values()[0], value(4));
    assert_eq!(calc.get(&[5]), Ok(5));
    assert_eq!(Calculation::from(value(2)).get(&[9]), Ok(9));
}

#[test]
fn inputs_are_listed_once_in_order_of_first_reference() {
    let a = value(3);
    let b = value(1);
    let calc = (a + b) * a - b;
    assert_eq!(calc.values().len(), 2);
    assert_eq!(calc.values()[0], a);
    assert_eq!(calc.values()[1], b);
    // (10 + 4) * 10 - 4
    assert_eq!(calc.get(&[10, 4]), Ok(136));
}

#[test]
fn merged_calculations_keep_their_own_inputs_apart() {
    let a = value(0);
    let b = value(1);
    let c = value(2);
    let left = a - b;
    let right = c * b;
    let calc = left + right;
    assert_eq!(calc.values().len(), 3);
    assert_eq!(calc.values()[0], a);
    assert_eq!(calc.values()[1], b);
    assert_eq!(calc.values()[2], c);
    // (7 - 2) + (5 * 2)
    assert_eq!(calc.get(&[7, 2, 5]), Ok(15));
}

#[test]
fn arithmetic_wraps_around() {
    assert_eq!((Calculation::constant(i32::MAX) + 1).get(&[]), Ok(i32::MIN));
    assert_eq!((Calculation::constant(i32::MIN) - 1).get(&[]), Ok(i32::MAX));
    assert_eq!((Calculation::constant(0x4000_0000) * 4).get(&[]), Ok(0));
    assert_eq!((-Calculation::constant(i32::MIN)).get(&[]), Ok(i32::MIN));
    assert_eq!(Calculation::constant(i32::MIN).abs().get(&[]), Ok(i32::MIN));
}

#[test]
fn operators_compute_exact_values() {
    assert_eq!((Calculation::constant(6) + 7).get(&[]), Ok(13));
    assert_eq!((Calculation::constant(6) - 7).get(&[]), Ok(-1));
    assert_eq!((Calculation::constant(6) * 7).get(&[]), Ok(42));
    assert_eq!((Calculation::constant(7) % 3).get(&[]), Ok(1));
    assert_eq!((-Calculation::constant(5)).get(&[]), Ok(-5));
    assert_eq!((!Calculation::constant(5)).get(&[]), Ok(0));
    assert_eq!((!Calculation::constant(0)).get(&[]), Ok(1));
    assert_eq!(Calculation::constant(-5).abs().get(&[]), Ok(5));
    assert_eq!(Calculation::constant(5).abs().get(&[]), Ok(5));
    assert_eq!(Calculation::constant(5).negate().get(&[]), Ok(-5));
    assert_eq!(Calculation::constant(5).invert().get(&[]), Ok(0));
}

#[test]
fn operators_on_values_and_constants() {
    let a = value(0);
    let b = value(1);
    assert_eq!((a + b).get(&[2, 3]), Ok(5));
    assert_eq!((a - b).get(&[2, 3]), Ok(-1));
    assert_eq!((a * b).get(&[2, 3]), Ok(6));
    assert_eq!((a / b).get(&[7, 2]), Ok(3));
    assert_eq!((a % b).get(&[7, 2]), Ok(1));
    assert_eq!((a + 1).get(&[2]), Ok(3));
    assert_eq!((a - 1).get(&[2]), Ok(1));
    assert_eq!((a * 10).get(&[2]), Ok(20));
    assert_eq!((a / 2).get(&[11]), Ok(5));
    assert_eq!((a % 4).get(&[11]), Ok(3));
    assert_eq!((1 + a).get(&[2]), Ok(3));
    assert_eq!((1 - a).get(&[2]), Ok(-1));
    assert_eq!((10 * a).get(&[2]), Ok(20));
    assert_eq!((10 / a).get(&[4]), Ok(2));
    assert_eq!((10 % a).get(&[4]), Ok(2));
    assert_eq!((1 + Calculation::value(a)).get(&[2]), Ok(3));
    assert_eq!((1 - Calculation::value(a)).get(&[2]), Ok(-1));
    assert_eq!((3 * Calculation::value(a)).get(&[2]), Ok(6));
    assert_eq!((9 / Calculation::value(a)).get(&[2]), Ok(4));
    assert_eq!((9 % Calculation::value(a)).get(&[2]), Ok(1));
    assert_eq!((Calculation::value(a) + b).get(&[2, 3]), Ok(5));
    assert_eq!((Calculation::value(a) - b).get(&[2, 3]), Ok(-1));
    assert_eq!((Calculation::value(a) * b).get(&[2, 3]), Ok(6));
    assert_eq!((Calculation::value(a) % b).get(&[7, 3]), Ok(1));
    assert_eq!((-a).get(&[2]), Ok(-2));
    assert_eq!((!a).get(&[2]), Ok(0));
}

#[test]
fn division_rounds_down() {
    assert_eq!(divide(Rounding::Floor, 7, 2), 3);
    assert_eq!(divide(Rounding::Floor, -7, 2), -4);
    assert_eq!(divide(Rounding::Floor, 7, -2), -4);
    assert_eq!(divide(Rounding::Floor, -7, -2), 3);
    assert_eq!(divide(Rounding::Floor, 6, 2), 3);
    assert_eq!(divide(Rounding::Floor, -6, 2), -3);
    assert_eq!(divide(Rounding::Floor, -1, 2), -1);
    assert_eq!(divide(Rounding::Floor, 0, 5), 0);
}

#[test]
fn division_rounds_up() {
    assert_eq!(divide(Rounding::Ceil, 7, 2), 4);
    assert_eq!(divide(Rounding::Ceil, -7, 2), -3);
    assert_eq!(divide(Rounding::Ceil, 7, -2), -3);
    assert_eq!(divide(Rounding::Ceil, -7, -2), 4);
    assert_eq!(divide(Rounding::Ceil, 6, 2), 3);
    assert_eq!(divide(Rounding::Ceil, 1, 2), 1);
    assert_eq!(divide(Rounding::Ceil, -1, 2), 0);
}

#[test]
fn division_rounds_to_the_nearest_and_halves_away_from_zero() {
    assert_eq!(divide(Rounding::Nearest, 7, 2), 4);
    assert_eq!(divide(Rounding::Nearest, -7, 2), -4);
    assert_eq!(divide(Rounding::Nearest, 7, -2), -4);
    assert_eq!(divide(Rounding::Nearest, -7, -2), 4);
    assert_eq!(divide(Rounding::Nearest, 5, 2), 3);
    assert_eq!(divide(Rounding::Nearest, -5, 2), -3);
    assert_eq!(divide(Rounding::Nearest, 1, 3), 0);
    assert_eq!(divide(Rounding::Nearest, 2, 3), 1);
    assert_eq!(divide(Rounding::Nearest, -1, 3), 0);
    assert_eq!(divide(Rounding::Nearest, -2, 3), -1);
}

#[test]
fn division_by_zero_goes_to_the_end_of_the_range() {
    assert_eq!(divide(Rounding::Floor, 5, 0), i32::MAX);
    assert_eq!(divide(Rounding::Floor, -5, 0), i32::MIN);
    assert_eq!(divide(Rounding::Floor, 0, 0), 0);
    assert_eq!(divide(Rounding::Nearest, 5, 0), i32::MAX);
    assert_eq!(divide(Rounding::Ceil, -5, 0), i32::MIN);
}

#[test]
fn division_stays_in_range() {
    assert_eq!(divide(Rounding::Floor, i32::MIN, -1), i32::MAX);
    assert_eq!(divide(Rounding::Nearest, i32::MIN, -1), i32::MAX);
    assert_eq!(divide(Rounding::Ceil, i32::MIN, -1), i32::MAX);
    assert_eq!(divide(Rounding::Floor, i32::MIN, 1), i32::MIN);
    assert_eq!(divide(Rounding::Floor, i32::MAX, 1), i32::MAX);
    assert_eq!(divide(Rounding::Nearest, i32::MAX, 2), 0x4000_0000);
    assert_eq!(divide(Rounding::Nearest, i32::MIN, 2), -0x4000_0000);
}

#[test]
fn remainder_has_the_sign_of_the_dividend() {
    assert_eq!((Calculation::constant(7) % 3).get(&[]), Ok(1));
    assert_eq!((Calculation::constant(-7) % 3).get(&[]), Ok(-1));
    assert_eq!((Calculation::constant(7) % -3).get(&[]), Ok(1));
    assert_eq!((Calculation::constant(-7) % -3).get(&[]), Ok(-1));
    assert_eq!((Calculation::constant(7) % 0).get(&[]), Ok(0));
    assert_eq!((Calculation::constant(i32::MIN) % -1).get(&[]), Ok(0));
}

#[test]
fn comparisons_give_one_or_zero() {
    assert_eq!(Calculation::constant(2).min(3).get(&[]), Ok(2));
    assert_eq!(Calculation::constant(2).max(3).get(&[]), Ok(3));
    assert_eq!(Calculation::constant(2).eq(2).get(&[]), Ok(1));
    assert_eq!(Calculation::constant(2).eq(3).get(&[]), Ok(0));
    assert_eq!(Calculation::constant(2).ne(2).get(&[]), Ok(0));
    assert_eq!(Calculation::constant(2).ne(3).get(&[]), Ok(1));
    assert_eq!(Calculation::constant(2).gt(2).get(&[]), Ok(0));
    assert_eq!(Calculation::constant(3).gt(2).get(&[]), Ok(1));
    assert_eq!(Calculation::constant(2).ge(2).get(&[]), Ok(1));
    assert_eq!(Calculation::constant(1).ge(2).get(&[]), Ok(0));
    assert_eq!(Calculation::constant(2).lt(2).get(&[]), Ok(0));
    assert_eq!(Calculation::constant(1).lt(2).get(&[]), Ok(1));
    assert_eq!(Calculation::constant(2).le(2).get(&[]), Ok(1));
    assert_eq!(Calculation::constant(3).le(2).get(&[]), Ok(0));
}

#[test]
fn boolean_operators_take_any_number_but_zero_as_true() {
    assert_eq!(Calculation::constant(5).and(-1).get(&[]), Ok(1));
    assert_eq!(Calculation::constant(5).and(0).get(&[]), Ok(0));
    assert_eq!(Calculation::constant(0).and(0).get(&[]), Ok(0));
    assert_eq!(Calculation::constant(0).or(7).get(&[]), Ok(1));
    assert_eq!(Calculation::constant(0).or(0).get(&[]), Ok(0));
    assert_eq!(Calculation::constant(3).or(0).get(&[]), Ok(1));
}

#[test]
fn placeholder_cannot_be_evaluated() {
    assert_eq!(
        Calculation::placeholder().get(&[]),
        Err(ErrorKind::UnboundPlaceholder)
    );
    let nested = (Calculation::constant(1) + Calculation::placeholder()) * 2;
    assert!(!nested.is_bound());
    assert_eq!(nested.get(&[]), Err(ErrorKind::UnboundPlaceholder));
    let right = Calculation::constant(1).max(Calculation::placeholder());
    assert_eq!(right.get(&[]), Err(ErrorKind::UnboundPlaceholder));
}

#[test]
fn every_placeholder_is_replaced_with_the_constant() {
    let calc = (Calculation::placeholder() + 1) * Calculation::placeholder();
    let bound = calc.replace_with_const(4);
    assert!(bound.is_bound());
    assert_eq!(bound.values().len(), 0);
    // (4 + 1) * 4
    assert_eq!(bound.get(&[]), Ok(20));
}

#[test]
fn every_placeholder_is_replaced_with_the_value() {
    let a = value(7);
    let b = value(2);
    let calc = (Calculation::placeholder() + b) * Calculation::placeholder();
    let bound = calc.replace_with_value(a);
    assert!(bound.is_bound());
    assert_eq!(bound.values().len(), 2);
    assert_eq!(bound.values()[0], b);
    assert_eq!(bound.values()[1], a);
    // (3 + 10) * 3 with b = 10 and a = 3
    assert_eq!(bound.get(&[10, 3]), Ok(39));
}

#[test]
fn replacing_with_a_value_that_is_an_input_adds_no_input() {
    let a = value(0);
    let calc = (Calculation::placeholder() + a).replace_with_value(a);
    assert_eq!(calc.values().len(), 1);
    assert_eq!(calc.get(&[6]), Ok(12));
}

#[test]
fn replacing_without_a_placeholder_changes_nothing() {
    let a = value(0);
    let calc = (a + 1).replace_with_value(value(5));
    assert_eq!(calc.values().len(), 1);
    assert_eq!(calc.values()[0], a);
    assert_eq!(calc.get(&[2]), Ok(3));
    let constant = Calculation::constant(9).replace_with_const(1);
    assert_eq!(constant.get(&[]), Ok(9));
}

#[test]
fn is_bound_tells_whether_a_placeholder_is_left() {
    assert!(Calculation::constant(1).is_bound());
    assert!(Calculation::value(value(0)).is_bound());
    assert!(!Calculation::placeholder().is_bound());
    assert!(Calculation::placeholder().replace_with_const(0).is_bound());
}

fn rounded(rounding: &Rounding, quotient: f64) -> i32 {
    let rounded = match rounding {
        Rounding::Floor => quotient.floor(),
        Rounding::Nearest => quotient.round(),
        Rounding::Ceil => quotient.ceil(),
    };
    rounded as i32
}

#[test]
fn division_agrees_with_rounding_the_double_precision_quotient() {
    let edges = [
        i32::MIN,
        i32::MIN + 1,
        i32::MIN + 2,
        -0x4000_0001,
        -0x4000_0000,
        -65537,
        -65536,
        -7,
        -3,
        -2,
        -1,
        0,
        1,
        2,
        3,
        7,
        65535,
        65536,
        0x3fff_ffff,
        0x4000_0000,
        i32::MAX - 2,
        i32::MAX - 1,
        i32::MAX,
    ];
    let modes = [Rounding::Floor, Rounding::Nearest, Rounding::Ceil];
    for &a in edges.iter() {
        for &b in edges.iter() {
            for mode in modes.iter() {
                assert_eq!(
                    mode.divide(a, b),
                    rounded(mode, a as f64 / b as f64),
                    "{} / {}",
                    a,
                    b
                );
            }
        }
    }
    // A fixed sequence of operands that covers the range.
    let mut state: u64 = 0x2545_f491_4f6c_dd1d;
    let mut next = || {
        state = state
            .wrapping_mul(6364136223846793005)
            .wrapping_add(1442695040888963407);
        (state >> 32) as u32 as i32
    };
    for round in 0..200_000 {
        let a = next();
        let mut b = next();
        if round % 3 == 0 {
            b %= 1000;
        }
        for mode in modes.iter() {
            assert_eq!(
                mode.divide(a, b),
                rounded(mode, a as f64 / b as f64),
                "{} / {}",
                a,
                b
            );
        }
    }
}
