use symbolic_solver::expr::Step;
use symbolic_solver::operation::{Scalar, Value, Variable, Variables};
use symbolic_solver::simultaneous_solver;
use symbolic_solver::solver::{solve, SolveError};

fn num(x: f64) -> Value {
    Value::Scalar(Scalar::from_bits(x.to_bits()))
}

fn var(id: usize) -> Value {
    Value::Variable(id)
}

fn scalar(x: f64) -> Scalar {
    Scalar::from_bits(x.to_bits())
}

fn read(arena: &Variables, id: usize) -> f64 {
    f64::from_bits(arena.get(id).unwrap().value.to_bits())
}

/// Runs the evaluation that the library gives for a tree, with the variables
/// as the arena has them when they are read.
fn evaluate(value: &Value, arena: &Variables) -> f64 {
    let mut stack: Vec<f64> = Vec::new();
    for step in value.evaluate() {
        match step {
            Step::Push(bits) => stack.push(f64::from_bits(bits)),
            Step::Load(id) => stack.push(read(arena, id)),
            Step::Add | Step::Multiply | Step::Power | Step::Logarithm => {
                let second = stack.pop().unwrap();
                let first = stack.pop().unwrap();
                stack.push(match step {
                    Step::Add => first + second,
                    Step::Multiply => first * second,
                    Step::Power => first.powf(second),
                    _ => second.log(first),
                });
            }
        }
    }
    assert_eq!(stack.len(), 1);
    stack[0]
}

#[test]
fn product_with_a_scalar_is_divided_out() {
    let arena = Variables::new();
    let x = 0;
    let r = solve(num(4.0).mul(var(x)), num(20.0), x).unwrap();
    assert_eq!(
        r,
        Value::Multiplication(vec![
            num(20.0),
            Value::Power(Box::new(num(4.0)), Box::new(num(-1.0)))
        ])
    );
    assert_eq!(evaluate(&r, &arena), 5.0);
}

#[test]
fn several_unrelated_factors_are_divided_out_as_one_product() {
    let arena = Variables::new();
    let x = 0;
    let left = num(2.0).mul(var(x)).mul(num(5.0));
    let r = solve(left, num(20.0), x).unwrap();
    assert_eq!(
        r,
        Value::Multiplication(vec![
            num(20.0),
            Value::Power(
                Box::new(Value::Multiplication(vec![num(2.0), num(5.0)])),
                Box::new(num(-1.0))
            )
        ])
    );
    assert_eq!(evaluate(&r, &arena), 2.0);
}

#[test]
fn bare_variable_is_solved_by_the_right_side() {
    let r = solve(var(3), num(7.0).add(var(4)), 3).unwrap();
    assert_eq!(r, Value::Sum(vec![num(7.0), var(4)]));
}

#[test]
fn exponent_is_the_logarithm_of_the_right_side() {
    let arena = Variables::new();
    let x = 0;
    let r = solve(Value::E.pow(var(x)), num(20.0), x).unwrap();
    assert_eq!(r, Value::Log(Box::new(Value::E), Box::new(num(20.0))));
    assert_eq!(evaluate(&r, &arena), 20.0f64.ln());
}

#[test]
fn nested_exponent_gives_nested_logarithms() {
    let arena = Variables::new();
    let x = 0;
    let left = num(3.0).pow(num(2.0).pow(var(x)));
    let r = solve(left, num(81.0), x).unwrap();
    assert_eq!(
        r,
        Value::Log(
            Box::new(num(2.0)),
            Box::new(Value::Log(Box::new(num(3.0)), Box::new(num(81.0))))
        )
    );
    assert!((evaluate(&r, &arena) - 2.0).abs() < 1e-12);
}

#[test]
fn solution_may_name_other_variables() {
    let mut arena = Variables::new();
    let x = Variable::new_contained(scalar(0.0), &mut arena);
    let y = Variable::new_contained(scalar(4.0), &mut arena);
    let r = solve(var(y).mul(var(x)), num(20.0), x).unwrap();
    assert!(r.depends_on(y));
    assert!(!r.depends_on(x));
    assert_eq!(evaluate(&r, &arena), 5.0);
    Variable::modify(scalar(2.0), y, &mut arena);
    assert_eq!(evaluate(&r, &arena), 10.0);
}

#[test]
fn variable_absent_from_the_left_is_a_precondition_violation() {
    assert_eq!(
        solve(num(4.0).mul(var(1)), num(20.0), 0),
        Err(SolveError::PreconditionViolation)
    );
    assert_eq!(solve(num(4.0), num(20.0), 0), Err(SolveError::PreconditionViolation));
}

#[test]
fn variable_on_the_right_is_a_precondition_violation() {
    assert_eq!(
        solve(num(4.0).mul(var(0)), num(20.0).add(var(0)), 0),
        Err(SolveError::PreconditionViolation)
    );
    assert_eq!(solve(num(4.0), var(0), 0), Err(SolveError::PreconditionViolation));
}

#[test]
fn sum_on_the_left_is_unsupported() {
    assert_eq!(
        solve(var(0).add(var(1)), num(5.0), 0),
        Err(SolveError::UnsupportedForm)
    );
}

#[test]
fn logarithm_on_the_left_is_unsupported() {
    assert_eq!(
        solve(var(0).log(num(2.0)), num(5.0), 0),
        Err(SolveError::UnsupportedForm)
    );
}

#[test]
fn variable_in_the_base_is_unsupported() {
    assert_eq!(
        solve(var(0).pow(num(2.0)), num(9.0), 0),
        Err(SolveError::UnsupportedForm)
    );
    assert_eq!(
        solve(var(0).pow(var(0)), num(9.0), 0),
        Err(SolveError::UnsupportedForm)
    );
}

#[test]
fn variable_in_every_factor_is_unsupported() {
    assert_eq!(
        solve(var(0).mul(var(0)), num(9.0), 0),
        Err(SolveError::UnsupportedForm)
    );
    assert_eq!(
        solve(num(2.0).mul(var(0)).mul(var(0)), num(9.0), 0),
        Err(SolveError::UnsupportedForm)
    );
}

#[test]
fn unsupported_form_below_a_supported_one_is_found() {
    let left = num(2.0).mul(var(0).add(num(1.0)));
    assert_eq!(solve(left, num(9.0), 0), Err(SolveError::UnsupportedForm));
}

#[test]
fn product_of_one_factor_is_tolerated_on_the_right() {
    let left = Value::Multiplication(vec![num(3.0), var(0)]);
    let right = Value::Multiplication(vec![num(12.0)]);
    let arena = Variables::new();
    let r = solve(left, right, 0).unwrap();
    assert_eq!(
        r,
        Value::Multiplication(vec![
            num(12.0),
            Value::Power(Box::new(num(3.0)), Box::new(num(-1.0)))
        ])
    );
    assert_eq!(evaluate(&r, &arena), 4.0);
}

#[test]
fn triangular_system_is_solved_and_written_back() {
    let mut arena = Variables::new();
    let v1 = Variable::new_contained(scalar(3.0), &mut arena);
    let v2 = Variable::new_contained(scalar(4.0), &mut arena);
    // 2 * v1 * v2 = 20 and 3 * v2 = 12
    let equations = vec![
        (num(2.0).mul(var(v1)).mul(var(v2)), num(20.0)),
        (num(3.0).mul(var(v2)), num(12.0)),
    ];
    let mut solved = simultaneous_solver::solve(equations, vec![v1, v2]).unwrap();
    assert_eq!(solved.len(), 2);
    assert_eq!(read(&arena, v1), 3.0);
    let mut order = Vec::new();
    loop {
        let (unknown, number) = match solved.next() {
            Some((unknown, expression)) => (unknown, evaluate(expression, &arena)),
            None => break,
        };
        order.push(unknown);
        solved.commit(scalar(number), &mut arena);
    }
    assert_eq!(order, vec![v2, v1]);
    assert_eq!(solved.len(), 0);
    assert!((read(&arena, v2) - 4.0).abs() < 1e-12);
    assert!((read(&arena, v1) - 2.5).abs() < 1e-12);
}

#[test]
fn solution_is_put_into_later_equations() {
    // v1 * 2 = 8 and v1 * v2 = 12: the second is solved with v1 replaced
    let (v1, v2) = (0, 1);
    let equations = vec![
        (var(v1).mul(num(2.0)), num(8.0)),
        (var(v1).mul(var(v2)), num(12.0)),
    ];
    let solved = simultaneous_solver::solve(equations, vec![v1, v2]).unwrap();
    let first = num(8.0).div(num(2.0));
    let (unknown, expression) = solved.next().unwrap();
    assert_eq!(unknown, v2);
    assert_eq!(*expression, num(12.0).div(first));
    assert!(!expression.depends_on(v1));
}

#[test]
fn exponential_system_needs_an_unsupported_expansion() {
    let mut arena = Variables::new();
    let v1 = Variable::new_contained(scalar(3.0), &mut arena);
    let v2 = Variable::new_contained(scalar(4.0), &mut arena);
    let samples = [(0.5f64, 0.0f64), (1.0, 0.0)];
    let mut equations = Vec::new();
    for (input, _) in samples.iter() {
        let output = (0.7f64 * (0.3f64 * input).exp()).exp();
        let left = Value::E.pow(var(v1).mul(Value::E.pow(var(v2).mul(num(*input)))));
        equations.push((left, num(output)));
    }
    // the first solution holds v2; put for v1 it leaves v2 in every factor
    let r = simultaneous_solver::solve(equations, vec![v1, v2]);
    assert!(matches!(r, Err(SolveError::UnsupportedForm)));
    assert_eq!(read(&arena, v1), 3.0);
    assert_eq!(read(&arena, v2), 4.0);
}

#[test]
fn system_with_mismatched_lengths_is_refused() {
    let equations = vec![(var(0).mul(num(2.0)), num(8.0))];
    assert!(matches!(
        simultaneous_solver::solve(equations, vec![0, 1]),
        Err(SolveError::PreconditionViolation)
    ));
    assert!(matches!(
        simultaneous_solver::solve(vec![], vec![0]),
        Err(SolveError::PreconditionViolation)
    ));
}

#[test]
fn empty_system_has_nothing_pending() {
    let mut arena = Variables::new();
    let x = Variable::new_contained(scalar(1.0), &mut arena);
    let mut solved = simultaneous_solver::solve(vec![], vec![]).unwrap();
    assert_eq!(solved.len(), 0);
    assert!(solved.next().is_none());
    solved.commit(scalar(9.0), &mut arena);
    assert_eq!(read(&arena, x), 1.0);
}

#[test]
fn failing_equation_fails_the_system() {
    let equations = vec![
        (var(0).mul(num(2.0)), num(8.0)),
        (var(1).add(num(2.0)), num(8.0)),
    ];
    assert!(matches!(
        simultaneous_solver::solve(equations, vec![0, 1]),
        Err(SolveError::UnsupportedForm)
    ));
}

#[test]
fn expression_reads_the_live_value_of_a_variable() {
    let mut arena = Variables::new();
    let x = Variable::new_contained(scalar(1.0), &mut arena);
    let tree = num(2.0).add(var(x));
    assert_eq!(evaluate(&tree, &arena), 3.0);
    Variable::modify(scalar(5.0), x, &mut arena);
    assert_eq!(evaluate(&tree, &arena), 7.0);
    assert_eq!(arena.get(x).unwrap().id, x);
}

#[test]
fn solutions_name_only_later_unknowns() {
    // v0 * v1 * v2 = 60, v1 * v2 = 12, v2 * 2 = 8
    let equations = vec![
        (var(0).mul(var(1)).mul(var(2)), num(60.0)),
        (var(1).mul(var(2)), num(12.0)),
        (var(2).mul(num(2.0)), num(8.0)),
    ];
    let mut arena = Variables::new();
    for _ in 0..3 {
        Variable::new_contained(scalar(1.0), &mut arena);
    }
    let mut solved = simultaneous_solver::solve(equations, vec![0, 1, 2]).unwrap();
    assert_eq!(solved.len(), 3);
    let mut expected_unknown = 3;
    loop {
        let number = match solved.next() {
            Some((unknown, expression)) => {
                expected_unknown -= 1;
                assert_eq!(unknown, expected_unknown);
                for earlier in 0..=unknown {
                    assert!(!expression.depends_on(earlier));
                }
                evaluate(expression, &arena)
            }
            None => break,
        };
        solved.commit(scalar(number), &mut arena);
    }
    assert_eq!(expected_unknown, 0);
    assert!((read(&arena, 2) - 4.0).abs() < 1e-12);
    assert!((read(&arena, 1) - 3.0).abs() < 1e-12);
    assert!((read(&arena, 0) - 5.0).abs() < 1e-12);
}

#[test]
fn evaluation_of_constant_expressions() {
    let arena = Variables::new();
    assert_eq!(evaluate(&num(2.0).add(num(3.0)), &arena), 5.0);
    assert_eq!(evaluate(&Value::E.pow(num(0.0)), &arena), 1.0);
    assert_eq!(evaluate(&Value::Pi, &arena), std::f64::consts::PI);
    assert_eq!(evaluate(&Value::E, &arena), std::f64::consts::E);
    assert_eq!(evaluate(&num(2.0).mul(num(3.0)).mul(num(4.0)), &arena), 24.0);
    assert_eq!(evaluate(&num(2.0).sub(num(3.0)), &arena), -1.0);
    assert_eq!(evaluate(&num(3.0).div(num(4.0)), &arena), 0.75);
    assert_eq!(evaluate(&num(3.0).neg(), &arena), -3.0);
    assert_eq!(evaluate(&num(2.0).pow(num(10.0)), &arena), 1024.0);
    assert_eq!(evaluate(&num(8.0).log(num(2.0)), &arena), 8.0f64.log(2.0));
    assert_eq!(evaluate(&num(20.0).log(Value::E), &arena), 20.0f64.log(std::f64::consts::E));
    assert_eq!(evaluate(&num(1.5), &arena), 1.5);
}

#[test]
fn evaluation_of_empty_sum_and_product() {
    let arena = Variables::new();
    assert_eq!(evaluate(&Value::Sum(vec![]), &arena), 0.0);
    assert_eq!(evaluate(&Value::Multiplication(vec![]), &arena), 1.0);
    assert_eq!(evaluate(&Value::Multiplication(vec![num(7.0)]), &arena), 7.0);
}

#[test]
fn evaluation_lets_non_finite_numbers_through() {
    let arena = Variables::new();
    assert!(evaluate(&num(-8.0).pow(num(0.5)), &arena).is_nan());
    assert!(evaluate(&num(-1.0).log(num(2.0)), &arena).is_nan());
    assert_eq!(evaluate(&num(0.0).log(num(2.0)), &arena), f64::NEG_INFINITY);
    assert_eq!(evaluate(&num(1.0).div(num(0.0)), &arena), f64::INFINITY);
}

#[test]
fn evaluation_steps_are_in_postfix_order() {
    let tree = num(2.0).add(var(7)).pow(Value::Pi.log(Value::E));
    assert_eq!(
        tree.evaluate(),
        vec![
            Step::Push(0.0f64.to_bits()),
            Step::Push(2.0f64.to_bits()),
            Step::Add,
            Step::Load(7),
            Step::Add,
            Step::Push(std::f64::consts::E.to_bits()),
            Step::Push(std::f64::consts::PI.to_bits()),
            Step::Logarithm,
            Step::Power,
        ]
    );
    assert_eq!(
        num(3.0).mul(num(4.0)).evaluate(),
        vec![
            Step::Push(1.0f64.to_bits()),
            Step::Push(3.0f64.to_bits()),
            Step::Multiply,
            Step::Push(4.0f64.to_bits()),
            Step::Multiply,
        ]
    );
    assert_eq!(Value::Sum(vec![]).evaluate(), vec![Step::Push(0.0f64.to_bits())]);
}
