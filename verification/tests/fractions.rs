use ajisai::fraction::Fraction;
use ajisai::interp::Interpreter;
use ajisai::value::{Value, ValueType};

fn stack_number(it: &Interpreter, idx: usize) -> (i64, i64) {
    let stack: &Vec<Value> = it.get_stack();
    match &stack[idx].val_type {
        ValueType::Number(f) => (f.numerator(), f.denominator()),
        other => panic!("expected a number, found {:?}", other),
    }
}

#[test]
fn reduction_two_fourths() {
    let a = Fraction::new(2, 4);
    let b = Fraction::new(1, 2);
    assert_eq!(a.numerator(), 1);
    assert_eq!(a.denominator(), 2);
    assert_eq!(b.numerator(), 1);
    assert_eq!(b.denominator(), 2);
}

#[test]
fn reduction_signs_and_zero() {
    let a = Fraction::new(6, -4);
    assert_eq!(a.numerator(), -3);
    assert_eq!(a.denominator(), 2);
    let z = Fraction::new(0, -7);
    assert_eq!(z.numerator(), 0);
    assert_eq!(z.denominator(), 1);
}

#[test]
fn try_new_rejects_zero_denominator() {
    assert!(Fraction::try_new(1, 0).is_none());
    assert!(Fraction::try_new(5, 3).is_some());
}

#[test]
fn arithmetic_methods_are_exact() {
    let third = Fraction::new(1, 3);
    let two_thirds = third.add(&third).unwrap();
    assert_eq!(two_thirds.numerator(), 2);
    assert_eq!(two_thirds.denominator(), 3);
    let one = two_thirds.add(&third).unwrap();
    assert_eq!(one.numerator(), 1);
    assert_eq!(one.denominator(), 1);
    let half = Fraction::new(1, 2);
    let sixth = third.mul(&half).unwrap();
    assert_eq!(sixth.numerator(), 1);
    assert_eq!(sixth.denominator(), 6);
    let diff = half.sub(&third).unwrap();
    assert_eq!(diff.numerator(), 1);
    assert_eq!(diff.denominator(), 6);
    let ratio = half.div(&third).unwrap();
    assert_eq!(ratio.numerator(), 3);
    assert_eq!(ratio.denominator(), 2);
}

#[test]
fn comparisons_cross_multiply() {
    let a = Fraction::new(1, 3);
    let b = Fraction::new(2, 5);
    assert!(b.gt(&a));
    assert!(b.ge(&a));
    assert!(a.lt(&b));
    assert!(a.le(&b));
    assert!(!a.eq(&b));
    assert!(Fraction::new(2, 4).eq(&Fraction::new(1, 2)));
}

#[test]
fn one_third_three_times_is_exactly_one() {
    let mut it = Interpreter::new();
    it.execute("1/3 1/3 + 1/3 +").unwrap();
    assert_eq!(stack_number(&it, 0), (1, 1));
    it.execute(".").unwrap();
    assert_eq!(it.get_output(), "1 ");
}

#[test]
fn decimal_literals_become_fractions() {
    let mut it = Interpreter::new();
    it.execute("0.25").unwrap();
    assert_eq!(stack_number(&it, 0), (1, 4));
    it.execute("2.5").unwrap();
    assert_eq!(stack_number(&it, 1), (5, 2));
}
