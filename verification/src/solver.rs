//! The isolation of one unknown in one equation.

use crate::expr::{
    lemma_any_depends_on, lemma_packed_filter_free, lemma_packed_filter_smaller,
    lemma_packed_unrelated_free,
    lemma_partition_len, lemma_partition_pair, lemma_times_free, packed, related, unrelated, Expr,
    MINUS_ONE_BITS,
};
use crate::operation::{lemma_model_of_children, models, Value};
use vstd::prelude::*;

verus! {

/// The failures of isolating an unknown.
#[derive(Clone, Copy, Debug, PartialEq, Eq, Structural)]
pub enum SolveError {
    /// The unknown is absent from the left-hand side or present on the right.
    PreconditionViolation,
    /// The outermost operation has no inversion rule.
    UnsupportedForm,
    /// The left-hand side became a number or a constant.
    InternalInvariantViolation,
}

/// What isolating the variable `id` on the left of `left = right` gives.
///
/// Each step takes the outermost operation off `left` and puts its inverse
/// round `right`, until `left` is a bare variable:
/// - a product is divided by its factors that do not depend on `id`; it
///   must have such a factor;
/// - a power whose exponent alone depends on `id` becomes its exponent, and
///   `right` its logarithm in the power's base;
/// - a sum, a logarithm, and a power with `id` in its base have no rule.
pub open spec fn isolate(left: Expr, right: Expr, id: usize) -> Result<Expr, SolveError>
    decreases left.size(),
    via isolate_decreases
{
    match left {
        Expr::Variable(_) => Ok(right),
        Expr::Sum(_) => Err(SolveError::UnsupportedForm),
        Expr::Log(_, _) => Err(SolveError::UnsupportedForm),
        Expr::Multiplication(factors) => {
            if unrelated(factors, id).len() == 0 {
                Err(SolveError::UnsupportedForm)
            } else if unrelated(factors, id).len() >= factors.len() {
                Err(SolveError::PreconditionViolation)
            } else {
                isolate(packed(related(factors, id)), right.over(packed(unrelated(factors, id))), id)
            }
        },
        Expr::Power(base, exponent) => {
            if base.depends_on(id) || !exponent.depends_on(id) {
                Err(SolveError::UnsupportedForm)
            } else {
                isolate(*exponent, Expr::Log(base, Box::new(right)), id)
            }
        },
        _ => Err(SolveError::InternalInvariantViolation),
    }
}

#[via_fn]
proof fn isolate_decreases(left: Expr, right: Expr, id: usize) {
    match left {
        Expr::Multiplication(factors) => {
            lemma_partition_len(factors, id);
            if unrelated(factors, id).len() != 0 {
                lemma_packed_filter_smaller(factors, |e: Expr| e.depends_on(id));
            }
        },
        _ => {},
    }
}

/// What solving `left = right` for the variable `id` gives: the equation is
/// refused unless `id` occurs on the left and not on the right, and is then
/// isolated.
pub open spec fn solution(left: Expr, right: Expr, id: usize) -> Result<Expr, SolveError> {
    if right.depends_on(id) || !left.depends_on(id) {
        Err(SolveError::PreconditionViolation)
    } else {
        isolate(left, right, id)
    }
}

/// Whether `result` is `expected`, the tree taken by what it stands for.
pub open spec fn agrees(result: Result<Value, SolveError>, expected: Result<Expr, SolveError>) -> bool {
    match result {
        Ok(value) => expected == Ok::<Expr, SolveError>(value@),
        Err(error) => expected == Err::<Expr, SolveError>(error),
    }
}

/// The lone node of `values`, or their product where there is not exactly one.
fn pack(values: Vec<Value>) -> (r: Value)
    ensures
        r@ == packed(models(values@)),
{
    let mut values = values;
    proof {
        lemma_model_of_children(values);
    }
    if values.len() == 1 {
        match values.pop() {
            Some(value) => value,
            None => Value::Multiplication(values),
        }
    } else {
        Value::Multiplication(values)
    }
}

/// Copies of the factors that depend on `variable_id`, and of those that do
/// not, each in the order of `values`.
fn partition(values: &Vec<Value>, variable_id: usize) -> (r: (Vec<Value>, Vec<Value>))
    ensures
        models(r.0@) == related(models(values@), variable_id),
        models(r.1@) == unrelated(models(values@), variable_id),
{
    let mut related_values: Vec<Value> = Vec::new();
    let mut unrelated_values: Vec<Value> = Vec::new();
    let ghost all = models(values@);
    let mut i: usize = 0;
    proof {
        reveal(Seq::filter);
        assert(all.take(0).len() == 0);
        assert(models(related_values@) =~= related(all.take(0), variable_id));
        assert(models(unrelated_values@) =~= unrelated(all.take(0), variable_id));
    }
    while i < values.len()
        invariant
            i <= values.len(),
            all == models(values@),
            models(related_values@) == related(all.take(i as int), variable_id),
            models(unrelated_values@) == unrelated(all.take(i as int), variable_id),
        decreases values.len() - i,
    {
        let ghost seen = all.take(i as int);
        let ghost kept = models(related_values@);
        let ghost left_out = models(unrelated_values@);
        let depends = values[i].depends_on(variable_id);
        let copy = values[i].clone();
        proof {
            assert(all.take(i + 1) =~= seen.push(all[i as int]));
            seen.lemma_filter_push(all[i as int], |e: Expr| e.depends_on(variable_id));
            seen.lemma_filter_push(all[i as int], |e: Expr| !e.depends_on(variable_id));
        }
        if depends {
            related_values.push(copy);
            assert(models(related_values@) =~= kept.push(all[i as int]));
        } else {
            unrelated_values.push(copy);
            assert(models(unrelated_values@) =~= left_out.push(all[i as int]));
        }
        i += 1;
    }
    proof {
        assert(all.take(values.len() as int) =~= all);
    }
    (related_values, unrelated_values)
}

/// Solves `left = right` for the variable `variable_id`: the expression that
/// the variable equals, built from `right` by undoing, from the outside in,
/// the operations that stand round the variable in `left`.
///
/// The equation is refused with `PreconditionViolation` where the variable
/// occurs in `right` or does not occur in `left`, and with `UnsupportedForm`
/// where an operation round the variable has no inversion rule.
pub fn solve(left: Value, right: Value, variable_id: usize) -> (r: Result<Value, SolveError>)
    ensures
        agrees(r, solution(left@, right@, variable_id)),
        r != Err::<Value, SolveError>(SolveError::InternalInvariantViolation),
        r is Ok ==> !r->Ok_0@.depends_on(variable_id),
        r == Err::<Value, SolveError>(SolveError::PreconditionViolation) <==> right@.depends_on(
            variable_id,
        ) || !left@.depends_on(variable_id),
{
    proof {
        if !right@.depends_on(variable_id) {
            lemma_isolate_free_of_variable(left@, right@, variable_id);
        }
        lemma_refused_equations(left@, right@, variable_id);
    }
    if right.depends_on(variable_id) {
        return Err(SolveError::PreconditionViolation);
    }
    if !left.depends_on(variable_id) {
        return Err(SolveError::PreconditionViolation);
    }
    let ghost goal = solution(left@, right@, variable_id);
    let mut lhs = left;
    let mut rhs = right;
    loop
        invariant
            goal == solution(left@, right@, variable_id),
            goal is Ok ==> !goal->Ok_0.depends_on(variable_id),
            goal != Err::<Expr, SolveError>(SolveError::PreconditionViolation),
            !right@.depends_on(variable_id) && left@.depends_on(variable_id),
            isolate(lhs@, rhs@, variable_id) == goal,
            lhs@.depends_on(variable_id),
        decreases lhs@.size(),
    {
        match lhs {
            Value::Variable(_) => {
                return Ok(rhs);
            },
            Value::Sum(_) => {
                return Err(SolveError::UnsupportedForm);
            },
            Value::Log(_, _) => {
                return Err(SolveError::UnsupportedForm);
            },
            Value::Multiplication(values) => {
                let ghost factors = models(values@);
                proof {
                    lemma_model_of_children(values);
                    lemma_partition_len(factors, variable_id);
                }
                let (related_values, unrelated_values) = partition(&values, variable_id);
                if unrelated_values.len() == 0 {
                    return Err(SolveError::UnsupportedForm);
                }
                if unrelated_values.len() >= values.len() {
                    return Err(SolveError::PreconditionViolation);
                }
                proof {
                    lemma_packed_filter_smaller(factors, |e: Expr| e.depends_on(variable_id));
                    lemma_packed_related_depends(factors, variable_id);
                }
                rhs = rhs.div(pack(unrelated_values));
                lhs = pack(related_values);
            },
            Value::Power(base, exponent) => {
                if base.depends_on(variable_id) || !exponent.depends_on(variable_id) {
                    return Err(SolveError::UnsupportedForm);
                }
                rhs = rhs.log(*base);
                lhs = *exponent;
            },
            _ => {
                return Err(SolveError::InternalInvariantViolation);
            },
        }
    }
}

/// What is left of a product once the factors without the variable are
/// divided out still holds the variable.
pub proof fn lemma_packed_related_depends(factors: Seq<Expr>, id: usize)
    requires
        related(factors, id).len() > 0,
    ensures
        packed(related(factors, id)).depends_on(id),
{
    let kept = related(factors, id);
    let pred = |e: Expr| e.depends_on(id);
    factors.lemma_filter_pred(pred, 0);
    assert(kept[0].depends_on(id));
    lemma_any_depends_on(kept, id);
}

/// An equation is refused as a precondition violation exactly when the
/// variable occurs on the right or does not occur on the left.
pub proof fn lemma_refused_equations(left: Expr, right: Expr, id: usize)
    ensures
        right.depends_on(id) || !left.depends_on(id) ==> solution(left, right, id) == Err::<
            Expr,
            SolveError,
        >(SolveError::PreconditionViolation),
        solution(left, right, id) == Err::<Expr, SolveError>(SolveError::PreconditionViolation)
            ==> right.depends_on(id) || !left.depends_on(id),
{
    if !right.depends_on(id) && left.depends_on(id) {
        lemma_isolate_keeps_variable(left, right, id);
    }
}

/// Isolation through a sum or a logarithm is unsupported.
pub proof fn lemma_sum_and_log_unsupported(left: Expr, right: Expr, id: usize)
    requires
        left is Sum || left is Log,
        left.depends_on(id),
        !right.depends_on(id),
    ensures
        solution(left, right, id) == Err::<Expr, SolveError>(SolveError::UnsupportedForm),
{
}

/// Solving `k * x = r` for `x`, with `k` and `r` free of `x`, gives `r / k`.
pub proof fn lemma_scaled_variable(k: Expr, x: usize, r: Expr)
    requires
        !k.depends_on(x),
        !r.depends_on(x),
    ensures
        solution(Expr::Multiplication(seq![k, Expr::Variable(x)]), r, x) == Ok::<
            Expr,
            SolveError,
        >(r.over(k)),
{
    let v = Expr::Variable(x);
    let factors = seq![k, v];
    lemma_partition_pair(k, v, x);
    lemma_any_depends_on(factors, x);
    assert(factors[1].depends_on(x));
    reveal_with_fuel(isolate, 3);
}

/// Solving `a ^ (b ^ x) = r` for `x`, with `a`, `b` and `r` free of `x`,
/// gives the logarithm in base `b` of the logarithm in base `a` of `r`.
pub proof fn lemma_nested_exponent(a: Expr, b: Expr, x: usize, r: Expr)
    requires
        !a.depends_on(x),
        !b.depends_on(x),
        !r.depends_on(x),
    ensures
        solution(
            Expr::Power(Box::new(a), Box::new(Expr::Power(Box::new(b), Box::new(Expr::Variable(x))))),
            r,
            x,
        ) == Ok::<Expr, SolveError>(
            Expr::Log(Box::new(b), Box::new(Expr::Log(Box::new(a), Box::new(r)))),
        ),
{
    reveal_with_fuel(isolate, 4);
    reveal_with_fuel(Expr::depends_on, 3);
}

/// With the variable absent from the right-hand side, it is absent from
/// what isolation gives.
pub proof fn lemma_isolate_free_of_variable(left: Expr, right: Expr, id: usize)
    requires
        !right.depends_on(id),
    ensures
        isolate(left, right, id) is Ok ==> !isolate(left, right, id)->Ok_0.depends_on(id),
    decreases left.size(),
{
    match left {
        Expr::Multiplication(factors) => {
            lemma_partition_len(factors, id);
            if unrelated(factors, id).len() != 0 && unrelated(factors, id).len() < factors.len() {
                let divisor = packed(unrelated(factors, id));
                lemma_packed_unrelated_free(factors, id);
                assert(!Expr::Scalar(MINUS_ONE_BITS).depends_on(id));
                lemma_times_free(
                    right,
                    Expr::Power(Box::new(divisor), Box::new(Expr::Scalar(MINUS_ONE_BITS))),
                    id,
                );
                lemma_packed_filter_smaller(factors, |e: Expr| e.depends_on(id));
                lemma_isolate_free_of_variable(packed(related(factors, id)), right.over(divisor), id);
            }
        },
        Expr::Power(base, exponent) => {
            if !base.depends_on(id) && exponent.depends_on(id) {
                lemma_isolate_free_of_variable(*exponent, Expr::Log(base, Box::new(right)), id);
            }
        },
        _ => {},
    }
}

/// Isolation brings in no variable: one that neither side of the equation
/// holds is absent from what isolation gives.
pub proof fn lemma_isolate_free_of_others(left: Expr, right: Expr, id: usize, other: usize)
    requires
        !left.depends_on(other),
        !right.depends_on(other),
    ensures
        isolate(left, right, id) is Ok ==> !isolate(left, right, id)->Ok_0.depends_on(other),
    decreases left.size(),
{
    match left {
        Expr::Multiplication(factors) => {
            lemma_partition_len(factors, id);
            if unrelated(factors, id).len() != 0 && unrelated(factors, id).len() < factors.len() {
                let divisor = packed(unrelated(factors, id));
                lemma_packed_filter_free(factors, |e: Expr| !e.depends_on(id), other);
                lemma_packed_filter_free(factors, |e: Expr| e.depends_on(id), other);
                assert(!Expr::Scalar(MINUS_ONE_BITS).depends_on(other));
                lemma_times_free(
                    right,
                    Expr::Power(Box::new(divisor), Box::new(Expr::Scalar(MINUS_ONE_BITS))),
                    other,
                );
                lemma_packed_filter_smaller(factors, |e: Expr| e.depends_on(id));
                lemma_isolate_free_of_others(
                    packed(related(factors, id)),
                    right.over(divisor),
                    id,
                    other,
                );
            }
        },
        Expr::Power(base, exponent) => {
            if !base.depends_on(id) && exponent.depends_on(id) {
                lemma_isolate_free_of_others(*exponent, Expr::Log(base, Box::new(right)), id, other);
            }
        },
        _ => {},
    }
}

/// While the left-hand side holds the variable, isolation never ends on a
/// number or a constant, and never finds the variable missing from a
/// product: it gives a solution or meets an unsupported form.
pub proof fn lemma_isolate_keeps_variable(left: Expr, right: Expr, id: usize)
    requires
        left.depends_on(id),
    ensures
        isolate(left, right, id) is Ok || isolate(left, right, id) == Err::<Expr, SolveError>(
            SolveError::UnsupportedForm,
        ),
    decreases left.size(),
{
    match left {
        Expr::Multiplication(factors) => {
            lemma_partition_len(factors, id);
            if unrelated(factors, id).len() != 0 {
                lemma_any_depends_on(factors, id);
                if unrelated(factors, id).len() >= factors.len() {
                    let i = choose|i: int|
                        0 <= i < factors.len() && (#[trigger] factors[i]).depends_on(id);
                    factors.lemma_filter_contains(|e: Expr| e.depends_on(id), i);
                    assert(related(factors, id).len() == 0);
                    assert(false);
                }
                lemma_packed_filter_smaller(factors, |e: Expr| e.depends_on(id));
                lemma_packed_related_depends(factors, id);
                lemma_isolate_keeps_variable(
                    packed(related(factors, id)),
                    right.over(packed(unrelated(factors, id))),
                    id,
                );
            }
        },
        Expr::Power(base, exponent) => {
            if !base.depends_on(id) && exponent.depends_on(id) {
                lemma_isolate_keeps_variable(*exponent, Expr::Log(base, Box::new(right)), id);
            }
        },
        _ => {},
    }
}

} // verus!
