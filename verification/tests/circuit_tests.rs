use snarkvm_core::circuit::{BaseField, Boolean, Circuit, Mode, ScalarField};
use snarkvm_core::field::Fp;

fn check_or(
    name: &'static str,
    expected: bool,
    a: Boolean,
    b: Boolean,
    num_constants: usize,
    num_public: usize,
    num_private: usize,
    num_constraints: usize,
) {
    let mut scope = Circuit::scoped(name);
    let candidate = a.or(&b, &mut scope);
    assert_eq!(
        expected,
        candidate.eject_value(),
        "{} != {} := ({} OR {})",
        expected,
        candidate.eject_value(),
        a.eject_value(),
        b.eject_value()
    );
    assert_eq!(num_constants, scope.num_constants_in_scope());
    assert_eq!(num_public, scope.num_public_in_scope());
    assert_eq!(num_private, scope.num_private_in_scope());
    assert_eq!(num_constraints, scope.num_constraints_in_scope());
    assert!(scope.is_satisfied());
}

fn new_bool(mode: Mode, value: bool) -> Boolean {
    let mut setup = Circuit::scoped("setup");
    Boolean::new(&mut setup, mode, value)
}

#[test]
fn test_constant_or_constant() {
    let a = new_bool(Mode::Constant, false);
    let b = new_bool(Mode::Constant, false);
    check_or("false OR false", false, a, b, 0, 0, 0, 0);

    let a = new_bool(Mode::Constant, false);
    let b = new_bool(Mode::Constant, true);
    check_or("false OR true", true, a, b, 0, 0, 0, 0);

    let a = new_bool(Mode::Constant, true);
    let b = new_bool(Mode::Constant, false);
    check_or("true OR false", true, a, b, 0, 0, 0, 0);

    let a = new_bool(Mode::Constant, true);
    let b = new_bool(Mode::Constant, true);
    check_or("true OR true", true, a, b, 0, 0, 0, 0);
}

#[test]
fn test_constant_or_public() {
    let a = new_bool(Mode::Constant, false);
    let b = new_bool(Mode::Public, false);
    check_or("false OR false", false, a, b, 0, 0, 0, 0);

    let a = new_bool(Mode::Constant, false);
    let b = new_bool(Mode::Public, true);
    check_or("false OR true", true, a, b, 0, 0, 0, 0);

    let a = new_bool(Mode::Constant, true);
    let b = new_bool(Mode::Public, false);
    check_or("true OR false", true, a, b, 0, 0, 0, 0);

    let a = new_bool(Mode::Constant, true);
    let b = new_bool(Mode::Public, true);
    check_or("true OR true", true, a, b, 0, 0, 0, 0);
}

#[test]
fn test_public_or_constant() {
    let a = new_bool(Mode::Public, false);
    let b = new_bool(Mode::Constant, false);
    check_or("false OR false", false, a, b, 0, 0, 0, 0);

    let a = new_bool(Mode::Public, false);
    let b = new_bool(Mode::Constant, true);
    check_or("false OR true", true, a, b, 0, 0, 0, 0);

    let a = new_bool(Mode::Public, true);
    let b = new_bool(Mode::Constant, false);
    check_or("true OR false", true, a, b, 0, 0, 0, 0);

    let a = new_bool(Mode::Public, true);
    let b = new_bool(Mode::Constant, true);
    check_or("true OR true", true, a, b, 0, 0, 0, 0);
}

#[test]
fn test_public_or_public() {
    let a = new_bool(Mode::Public, false);
    let b = new_bool(Mode::Public, false);
    check_or("false OR false", false, a, b, 0, 0, 1, 2);

    let a = new_bool(Mode::Public, false);
    let b = new_bool(Mode::Public, true);
    check_or("false OR true", true, a, b, 0, 0, 1, 2);

    let a = new_bool(Mode::Public, true);
    let b = new_bool(Mode::Public, false);
    check_or("true OR false", true, a, b, 0, 0, 1, 2);

    let a = new_bool(Mode::Public, true);
    let b = new_bool(Mode::Public, true);
    check_or("true OR true", true, a, b, 0, 0, 1, 2);
}

#[test]
fn test_public_or_private() {
    let a = new_bool(Mode::Public, false);
    let b = new_bool(Mode::Private, false);
    check_or("false OR false", false, a, b, 0, 0, 1, 2);

    let a = new_bool(Mode::Public, false);
    let b = new_bool(Mode::Private, true);
    check_or("false OR true", true, a, b, 0, 0, 1, 2);

    let a = new_bool(Mode::Public, true);
    let b = new_bool(Mode::Private, false);
    check_or("true OR false", true, a, b, 0, 0, 1, 2);

    let a = new_bool(Mode::Public, true);
    let b = new_bool(Mode::Private, true);
    check_or("true OR true", true, a, b, 0, 0, 1, 2);
}

#[test]
fn test_private_or_private() {
    let a = new_bool(Mode::Private, false);
    let b = new_bool(Mode::Private, false);
    check_or("false OR false", false, a, b, 0, 0, 1, 2);

    let a = new_bool(Mode::Private, false);
    let b = new_bool(Mode::Private, true);
    check_or("false OR true", true, a, b, 0, 0, 1, 2);

    let a = new_bool(Mode::Private, true);
    let b = new_bool(Mode::Private, false);
    check_or("true OR false", true, a, b, 0, 0, 1, 2);

    let a = new_bool(Mode::Private, true);
    let b = new_bool(Mode::Private, true);
    check_or("true OR true", true, a, b, 0, 0, 1, 2);
}

fn check_ternary(
    name: &'static str,
    expected: bool,
    condition: Boolean,
    a: Boolean,
    b: Boolean,
    num_constants: usize,
    num_public: usize,
    num_private: usize,
    num_constraints: usize,
) {
    let mut scope = Circuit::scoped(name);
    let candidate = Boolean::ternary(&condition, &a, &b, &mut scope);
    assert_eq!(
        expected,
        candidate.eject_value(),
        "{} != {} := ({} ? {} : {})",
        expected,
        candidate.eject_value(),
        condition.eject_value(),
        a.eject_value(),
        b.eject_value()
    );
    assert_eq!(num_constants, scope.num_constants_in_scope());
    assert_eq!(num_public, scope.num_public_in_scope());
    assert_eq!(num_private, scope.num_private_in_scope());
    assert_eq!(num_constraints, scope.num_constraints_in_scope());
    assert!(scope.is_satisfied());
}

#[test]
fn test_constant_condition() {
    for &(flag, first, second) in &[
        (false, Mode::Constant, Mode::Constant),
        (false, Mode::Constant, Mode::Public),
        (false, Mode::Public, Mode::Constant),
        (false, Mode::Public, Mode::Public),
        (false, Mode::Public, Mode::Private),
        (false, Mode::Private, Mode::Private),
        (true, Mode::Constant, Mode::Constant),
        (true, Mode::Constant, Mode::Public),
        (true, Mode::Public, Mode::Constant),
        (true, Mode::Public, Mode::Public),
        (true, Mode::Public, Mode::Private),
        (true, Mode::Private, Mode::Private),
    ] {
        let expected = flag;
        let condition = new_bool(Mode::Constant, flag);
        let a = new_bool(first, true);
        let b = new_bool(second, false);
        let name = if flag {
            "true ? a : b"
        } else {
            "false ? a : b"
        };
        check_ternary(name, expected, condition, a, b, 0, 0, 0, 0);
    }
}

#[test]
fn test_public_condition_and_constant_input() {
    for &flag in &[false, true] {
        let expected = flag;
        // Constant : Constant resolves without allocations
        let condition = new_bool(Mode::Public, flag);
        let a = new_bool(Mode::Constant, true);
        let b = new_bool(Mode::Constant, false);
        check_ternary("flag ? Constant : Constant", expected, condition, a, b, 0, 0, 0, 0);

        // Constant : Public and Public : Constant each cost one private
        // witness and two constraints
        let condition = new_bool(Mode::Public, flag);
        let a = new_bool(Mode::Constant, true);
        let b = new_bool(Mode::Public, false);
        check_ternary("flag ? Constant : Public", expected, condition, a, b, 0, 0, 1, 2);

        let condition = new_bool(Mode::Public, flag);
        let a = new_bool(Mode::Public, true);
        let b = new_bool(Mode::Constant, false);
        check_ternary("flag ? Public : Constant", expected, condition, a, b, 0, 0, 1, 2);
    }
}

#[test]
fn test_private_condition_and_constant_input() {
    for &flag in &[false, true] {
        let expected = flag;
        let condition = new_bool(Mode::Private, flag);
        let a = new_bool(Mode::Constant, true);
        let b = new_bool(Mode::Constant, false);
        check_ternary("flag ? Constant : Constant", expected, condition, a, b, 0, 0, 0, 0);

        let condition = new_bool(Mode::Private, flag);
        let a = new_bool(Mode::Constant, true);
        let b = new_bool(Mode::Public, false);
        check_ternary("flag ? Constant : Public", expected, condition, a, b, 0, 0, 1, 2);

        let condition = new_bool(Mode::Private, flag);
        let a = new_bool(Mode::Public, true);
        let b = new_bool(Mode::Constant, false);
        check_ternary("flag ? Public : Constant", expected, condition, a, b, 0, 0, 1, 2);
    }
}

#[test]
fn test_public_condition_and_variable_inputs() {
    for &flag in &[false, true] {
        let expected = flag;
        for &(first, second) in &[
            (Mode::Public, Mode::Public),
            (Mode::Public, Mode::Private),
            (Mode::Private, Mode::Public),
            (Mode::Private, Mode::Private),
        ] {
            let condition = new_bool(Mode::Public, flag);
            let a = new_bool(first, true);
            let b = new_bool(second, false);
            check_ternary("flag ? a : b", expected, condition, a, b, 0, 0, 1, 2);
        }
    }
}

#[test]
fn test_private_condition_and_variable_inputs() {
    for &flag in &[false, true] {
        let expected = flag;
        for &(first, second) in &[
            (Mode::Public, Mode::Public),
            (Mode::Public, Mode::Private),
            (Mode::Private, Mode::Public),
            (Mode::Private, Mode::Private),
        ] {
            let condition = new_bool(Mode::Private, flag);
            let a = new_bool(first, true);
            let b = new_bool(second, false);
            check_ternary("flag ? a : b", expected, condition, a, b, 0, 0, 1, 2);
        }
    }
}

const ITERATIONS: usize = 1_000;

#[test]
fn test_inv() {
    let one = Fp::one();

    // Constant variables
    {
        let mut scope = Circuit::scoped("Constant");
        let mut accumulator = one;
        for i in 0..ITERATIONS {
            let expected = accumulator.inverse().unwrap();
            let candidate = BaseField::new(&mut scope, Mode::Constant, accumulator)
                .inv(&mut scope);
            assert_eq!(expected, candidate.eject_value());

            assert_eq!((i + 1) * 2, scope.num_constants_in_scope());
            assert_eq!(0, scope.num_public_in_scope());
            assert_eq!(0, scope.num_private_in_scope());
            assert_eq!(0, scope.num_constraints_in_scope());

            accumulator = accumulator.add(one);
        }
    }

    // Public variables
    {
        let mut scope = Circuit::scoped("Public");
        let mut accumulator = one;
        for i in 0..ITERATIONS {
            let expected = accumulator.inverse().unwrap();
            let candidate =
                BaseField::new(&mut scope, Mode::Public, accumulator).inv(&mut scope);
            assert_eq!(expected, candidate.eject_value());

            assert_eq!(0, scope.num_constants_in_scope());
            assert_eq!(i + 1, scope.num_public_in_scope());
            assert_eq!(i + 1, scope.num_private_in_scope());
            assert_eq!(i + 1, scope.num_constraints_in_scope());
            assert!(scope.is_satisfied());

            accumulator = accumulator.add(one);
        }
    }

    // Private variables
    {
        let mut scope = Circuit::scoped("Private");
        let mut accumulator = one;
        for i in 0..ITERATIONS {
            let expected = accumulator.inverse().unwrap();
            let candidate =
                BaseField::new(&mut scope, Mode::Private, accumulator).inv(&mut scope);
            assert_eq!(expected, candidate.eject_value());

            assert_eq!(0, scope.num_constants_in_scope());
            assert_eq!(0, scope.num_public_in_scope());
            assert_eq!((i + 1) * 2, scope.num_private_in_scope());
            assert_eq!(i + 1, scope.num_constraints_in_scope());
            assert!(scope.is_satisfied());

            accumulator = accumulator.add(one);
        }
    }
}

const SQUARE_ITERATIONS: usize = 500;

#[test]
fn test_square() {
    let one = Fp::one();

    // Constant variables
    {
        let mut scope = Circuit::scoped("Constant");
        let mut expected = one;
        let mut candidate = BaseField::new(&mut scope, Mode::Constant, one);
        for _ in 0..SQUARE_ITERATIONS {
            expected = expected.mul(expected);
            candidate = candidate.square(&mut scope);
            assert_eq!(expected, candidate.eject_value());

            assert_eq!(1, scope.num_constants_in_scope());
            assert_eq!(0, scope.num_public_in_scope());
            assert_eq!(0, scope.num_private_in_scope());
            assert_eq!(0, scope.num_constraints_in_scope());
        }
        assert!(scope.is_satisfied());
    }

    // Public variables
    {
        let mut scope = Circuit::scoped("Public");
        let mut expected = one;
        let mut candidate = BaseField::new(&mut scope, Mode::Public, one);
        for _ in 0..SQUARE_ITERATIONS {
            expected = expected.mul(expected);
            candidate = candidate.square(&mut scope);
            assert_eq!(expected, candidate.eject_value());
        }
        assert!(scope.is_satisfied());
    }

    // Private variables
    {
        let mut scope = Circuit::scoped("Private");
        let mut expected = one;
        let mut candidate = BaseField::new(&mut scope, Mode::Private, one);
        for _ in 0..SQUARE_ITERATIONS {
            expected = expected.mul(expected);
            candidate = candidate.square(&mut scope);
            assert_eq!(expected, candidate.eject_value());
        }
        assert!(scope.is_satisfied());
    }
}

#[test]
fn test_0_square() {
    let zero = Fp::zero();
    let mut scope = Circuit::scoped("zero square");
    let candidate = BaseField::new(&mut scope, Mode::Public, zero).square(&mut scope);
    assert_eq!(zero, candidate.eject_value());
}

#[test]
fn test_1_double() {
    let one = Fp::one();
    let mut scope = Circuit::scoped("one square");
    let candidate = BaseField::new(&mut scope, Mode::Public, one).square(&mut scope);
    assert_eq!(one, candidate.eject_value());
}

#[test]
fn test_2_double() {
    let one = Fp::one();
    let two = one.add(one);
    let four = two.mul(two);

    let mut scope = Circuit::scoped("two square");
    let a = BaseField::new(&mut scope, Mode::Public, one);
    let b = BaseField::new(&mut scope, Mode::Public, one);
    let candidate = a.add(&b).square(&mut scope);
    assert_eq!(four, candidate.eject_value());
}

#[test]
fn test_is_zero() {
    let mut scope = Circuit::scoped("is zero");
    let candidate = ScalarField::zero(&mut scope);

    // Should equal 0.
    let candidate_boolean = candidate.is_zero(&mut scope);
    assert!(candidate_boolean.eject_value());

    // Should not equal 1.
    let candidate_boolean = candidate.is_one(&mut scope);
    assert!(!candidate_boolean.eject_value());
}
