use symbolic_solver::operation::{Scalar, Value, Variable, Variables};

fn num(x: f64) -> Value {
    Value::Scalar(Scalar::from_bits(x.to_bits()))
}

fn var(id: usize) -> Value {
    Value::Variable(id)
}

#[test]
fn sum_of_sum_and_term_is_flat() {
    let r = num(1.0).add(num(2.0)).add(num(3.0));
    match &r {
        Value::Sum(children) => assert_eq!(children.len(), 3),
        _ => panic!("not a sum"),
    }
    assert_eq!(r, Value::Sum(vec![num(1.0), num(2.0), num(3.0)]));
}

#[test]
fn product_of_product_and_factor_is_flat() {
    let r = var(0).mul(var(1)).mul(var(2));
    assert_eq!(r, Value::Multiplication(vec![var(0), var(1), var(2)]));
}

#[test]
fn sum_on_the_right_of_a_sum_is_taken_in() {
    let left = num(1.0).add(num(2.0));
    let right = num(3.0).add(num(4.0));
    assert_eq!(
        left.add(right),
        Value::Sum(vec![num(1.0), num(2.0), num(3.0), num(4.0)])
    );
}

#[test]
fn sum_on_the_right_of_a_leaf_stays_nested() {
    let right = num(2.0).add(num(3.0));
    assert_eq!(
        num(1.0).add(right),
        Value::Sum(vec![num(1.0), Value::Sum(vec![num(2.0), num(3.0)])])
    );
}

#[test]
fn product_on_the_right_of_a_product_is_taken_in() {
    let left = var(0).mul(var(1));
    let right = var(2).mul(var(3));
    assert_eq!(
        left.mul(right),
        Value::Multiplication(vec![var(0), var(1), var(2), var(3)])
    );
}

#[test]
fn product_on_the_right_of_a_leaf_stays_nested() {
    let right = var(1).mul(var(2));
    assert_eq!(
        var(0).mul(right),
        Value::Multiplication(vec![var(0), Value::Multiplication(vec![var(1), var(2)])])
    );
}

#[test]
fn negation_puts_minus_one_in_front() {
    assert_eq!(
        var(0).neg(),
        Value::Multiplication(vec![num(-1.0), var(0)])
    );
}

#[test]
fn negation_of_a_product_appends_minus_one() {
    assert_eq!(
        var(0).mul(var(1)).neg(),
        Value::Multiplication(vec![var(0), var(1), num(-1.0)])
    );
}

#[test]
fn subtraction_adds_the_negation() {
    assert_eq!(
        num(5.0).sub(var(0)),
        Value::Sum(vec![num(5.0), Value::Multiplication(vec![num(-1.0), var(0)])])
    );
}

#[test]
fn division_multiplies_by_the_inverse_power() {
    assert_eq!(
        num(20.0).div(num(4.0)),
        Value::Multiplication(vec![
            num(20.0),
            Value::Power(Box::new(num(4.0)), Box::new(num(-1.0)))
        ])
    );
}

#[test]
fn power_and_logarithm_wrap_their_operands() {
    assert_eq!(
        Value::E.pow(num(0.0)),
        Value::Power(Box::new(Value::E), Box::new(num(0.0)))
    );
    assert_eq!(
        num(8.0).log(num(2.0)),
        Value::Log(Box::new(num(2.0)), Box::new(num(8.0)))
    );
    let nested = num(2.0).pow(num(3.0)).pow(num(4.0));
    assert_eq!(
        nested,
        Value::Power(
            Box::new(Value::Power(Box::new(num(2.0)), Box::new(num(3.0)))),
            Box::new(num(4.0))
        )
    );
}

#[test]
fn shape_predicates_name_the_top_tag() {
    assert!(num(1.0).add(num(2.0)).is_sum());
    assert!(num(1.0).mul(num(2.0)).is_multiplication());
    assert!(num(1.0).pow(num(2.0)).is_power());
    assert!(num(1.0).log(num(2.0)).is_log());
    assert!(num(1.0).is_scalar());
    assert!(var(0).is_variable());
    assert!(Value::E.is_e());
    assert!(Value::Pi.is_pi());
    assert!(!Value::Pi.is_e());
    assert!(!var(0).is_scalar());
    assert!(!num(1.0).add(num(2.0)).is_multiplication());
    assert!(!num(1.0).pow(num(2.0)).is_log());
}

#[test]
fn scalars_compare_by_value_with_nan_equal_to_nan() {
    let nan = Scalar::from_bits(f64::NAN.to_bits());
    let other_nan = Scalar::from_bits(f64::NAN.to_bits() | 1);
    let one = Scalar::from_bits(1.0f64.to_bits());
    let two = Scalar::from_bits(2.0f64.to_bits());
    let zero = Scalar::from_bits(0.0f64.to_bits());
    let minus_zero = Scalar::from_bits((-0.0f64).to_bits());
    let infinity = Scalar::from_bits(f64::INFINITY.to_bits());
    assert!(nan == nan);
    assert!(nan == other_nan);
    assert!(nan != one);
    assert!(one != nan);
    assert!(one == one);
    assert!(one != two);
    assert!(zero == minus_zero);
    assert!(infinity == infinity);
    assert!(infinity != nan);
    assert!(nan.is_nan());
    assert!(other_nan.is_nan());
    assert!(!infinity.is_nan());
    assert!(!one.is_nan());
    assert_eq!(one.to_bits(), 1.0f64.to_bits());
}

#[test]
fn minus_one_is_the_number_it_says() {
    match var(0).neg() {
        Value::Multiplication(children) => match &children[0] {
            Value::Scalar(s) => assert_eq!(f64::from_bits(s.to_bits()), -1.0),
            _ => panic!("not a scalar"),
        },
        _ => panic!("not a product"),
    }
}

#[test]
fn trees_compare_by_structure() {
    let a = num(1.0).add(var(3)).pow(Value::Pi);
    let b = num(1.0).add(var(3)).pow(Value::Pi);
    assert!(a == b);
    assert!(a != num(1.0).add(var(4)).pow(Value::Pi));
    assert!(a != num(1.0).add(var(3)).pow(Value::E));
    assert!(num(1.0).add(num(2.0)) != num(1.0).mul(num(2.0)));
    assert!(num(1.0).add(num(2.0)) != num(1.0).add(num(2.0)).add(num(3.0)));
    assert!(num(f64::NAN) == num(f64::NAN));
    assert!(num(1.0).log(num(2.0)) != num(2.0).log(num(1.0)));
    assert!(Value::Sum(vec![]) == Value::Sum(vec![]));
    assert!(Value::Sum(vec![]) != Value::Multiplication(vec![]));
}

#[test]
fn clone_is_equal_and_names_the_same_variable() {
    let a = var(7).mul(num(2.0)).add(Value::E.log(var(7)));
    let b = a.clone();
    assert_eq!(a, b);
    assert!(b.depends_on(7));
}

#[test]
fn depends_on_looks_through_every_node() {
    let tree = num(2.0).add(Value::E.pow(num(3.0).mul(var(5)))).log(var(6));
    assert!(tree.depends_on(5));
    assert!(tree.depends_on(6));
    assert!(!tree.depends_on(4));
    assert!(!num(1.0).depends_on(0));
    assert!(!Value::E.depends_on(0));
    assert!(!Value::Pi.depends_on(0));
    assert!(var(0).depends_on(0));
    assert!(!var(0).depends_on(1));
    assert!(!Value::Sum(vec![]).depends_on(0));
    assert!(!Value::Multiplication(vec![]).depends_on(0));
    assert!(num(1.0).pow(var(2)).depends_on(2));
    assert!(var(2).pow(num(1.0)).depends_on(2));
}

#[test]
fn substitute_replaces_every_leaf_of_the_variable() {
    let mut tree = var(1).add(var(2).mul(var(1))).pow(num(3.0).log(var(1)));
    tree.substitute(1, num(9.0).add(var(4)));
    let by = || num(9.0).add(var(4));
    // the replacement stands as one child: a sum put for a leaf is not flattened
    let expected = Value::Power(
        Box::new(Value::Sum(vec![
            by(),
            Value::Multiplication(vec![var(2), by()]),
        ])),
        Box::new(Value::Log(Box::new(by()), Box::new(num(3.0)))),
    );
    assert_eq!(tree, expected);
    assert!(!tree.depends_on(1));
    assert!(tree.depends_on(2));
    assert!(tree.depends_on(4));
}

#[test]
fn substitute_leaves_other_trees_unchanged() {
    let mut tree = var(2).mul(Value::Pi).add(Value::E);
    let before = tree.clone();
    tree.substitute(1, num(9.0));
    assert_eq!(tree, before);
    let copy = before.substituted(3, &num(1.0));
    assert_eq!(copy, before);
}

#[test]
fn identities_rise_and_are_not_given_twice() {
    let mut arena = Variables::new();
    let a = Variable::unique_id(&mut arena);
    let b = Variable::unique_id(&mut arena);
    let c = Variable::new(Scalar::from_bits(1.5f64.to_bits()), &mut arena);
    let d = Variable::new_contained(Scalar::from_bits(2.5f64.to_bits()), &mut arena);
    assert_eq!((a, b, c.id, d), (0, 1, 2, 3));
    assert_eq!(c.value.to_bits(), 1.5f64.to_bits());
    assert_eq!(arena.len(), 4);
    assert!(arena.get(a).is_none());
    assert!(arena.get(c.id).is_none());
    assert!(arena.get(4).is_none());
    let kept = arena.get(d).unwrap();
    assert_eq!(kept.id, d);
    assert_eq!(kept.value.to_bits(), 2.5f64.to_bits());
}

#[test]
fn with_id_keeps_what_it_is_given() {
    let v = Variable::with_id(42, Scalar::from_bits(7.0f64.to_bits()));
    assert_eq!(v.id, 42);
    assert_eq!(v.value.to_bits(), 7.0f64.to_bits());
}

#[test]
fn modify_replaces_the_value_and_keeps_the_identity() {
    let mut arena = Variables::new();
    let x = Variable::new_contained(Scalar::from_bits(1.0f64.to_bits()), &mut arena);
    let y = Variable::new_contained(Scalar::from_bits(2.0f64.to_bits()), &mut arena);
    Variable::modify(Scalar::from_bits(5.0f64.to_bits()), x, &mut arena);
    assert_eq!(arena.get(x).unwrap().id, x);
    assert_eq!(arena.get(x).unwrap().value.to_bits(), 5.0f64.to_bits());
    assert_eq!(arena.get(y).unwrap().value.to_bits(), 2.0f64.to_bits());
    Variable::modify(Scalar::from_bits(5.0f64.to_bits()), 9, &mut arena);
    assert_eq!(arena.len(), 2);
    assert_eq!(arena.get(y).unwrap().value.to_bits(), 2.0f64.to_bits());
}

#[test]
fn variables_compare_by_identity_and_value() {
    let one = Scalar::from_bits(1.0f64.to_bits());
    let two = Scalar::from_bits(2.0f64.to_bits());
    let nan = Scalar::from_bits(f64::NAN.to_bits());
    assert!(Variable::with_id(1, one) == Variable::with_id(1, one));
    assert!(Variable::with_id(1, one) != Variable::with_id(2, one));
    assert!(Variable::with_id(1, one) != Variable::with_id(1, two));
    assert!(Variable::with_id(1, nan) == Variable::with_id(1, nan));
}

#[test]
fn scalar_becomes_a_leaf() {
    let s = Scalar::from_bits(2.5f64.to_bits());
    assert_eq!(Value::from(s), num(2.5));
    let v: Value = s.into();
    assert!(v.is_scalar());
}
