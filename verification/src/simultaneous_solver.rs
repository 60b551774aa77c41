//! The solution of a triangular system, one unknown after the other.

use crate::expr::{lemma_substitute_eliminates, lemma_substitute_free, Expr};
use crate::operation::{Scalar, Value, Variable, Variables};
use crate::solver::{
    lemma_isolate_free_of_others, lemma_isolate_free_of_variable, solution, SolveError,
};
use vstd::prelude::*;

verus! {

/// What the equations of `equations` stand for, in their order.
pub open spec fn equation_models(equations: Seq<(Value, Value)>) -> Seq<(Expr, Expr)> {
    Seq::new(equations.len(), |i: int| (equations[i].0@, equations[i].1@))
}

/// `equations` with `by` put for the variable `id` on both sides of the
/// equations from `from` up to, and without, `to`.
pub open spec fn eliminated(
    equations: Seq<(Expr, Expr)>,
    from: int,
    to: int,
    id: usize,
    by: Expr,
) -> Seq<(Expr, Expr)> {
    Seq::new(
        equations.len(),
        |k: int|
            if from <= k < to {
                (equations[k].0.substitute(id, by), equations[k].1.substitute(id, by))
            } else {
                equations[k]
            },
    )
}

/// The system after its first `steps` unknowns are solved and eliminated:
/// the equations as they then stand, and each unknown so far with its
/// solution. Step `i` solves equation `i`, as it stands by then, for unknown
/// `i`, and puts the solution for that unknown in equation `i` and in all
/// that follow. The first step that fails gives the whole its error.
pub open spec fn forward(equations: Seq<(Expr, Expr)>, unknowns: Seq<usize>, steps: nat) -> Result<
    (Seq<(Expr, Expr)>, Seq<(usize, Expr)>),
    SolveError,
>
    decreases steps,
{
    if steps == 0 {
        Ok((equations, Seq::empty()))
    } else {
        let i = steps - 1;
        match forward(equations, unknowns, i as nat) {
            Err(error) => Err(error),
            Ok((standing, solved)) => match solution(standing[i].0, standing[i].1, unknowns[i]) {
                Err(error) => Err(error),
                Ok(answer) => Ok(
                    (
                        eliminated(standing, i, standing.len() as int, unknowns[i], answer),
                        solved.push((unknowns[i], answer)),
                    ),
                ),
            },
        }
    }
}

/// What solving the system gives: each unknown with its solution, in the
/// order of the unknowns. A system with another number of equations than of
/// unknowns is refused.
pub open spec fn system_solution(equations: Seq<(Expr, Expr)>, unknowns: Seq<usize>) -> Result<
    Seq<(usize, Expr)>,
    SolveError,
> {
    if equations.len() != unknowns.len() {
        Err(SolveError::PreconditionViolation)
    } else {
        match forward(equations, unknowns, unknowns.len()) {
            Err(error) => Err(error),
            Ok((_, solved)) => Ok(solved),
        }
    }
}

/// The solved unknowns of a system whose values are not written yet. A
/// solution may name unknowns that come after its own, so the values are
/// worked out and written from the last unknown to the first.
pub struct Solutions {
    pending: Vec<(usize, Value)>,
}

impl View for Solutions {
    type V = Seq<(usize, Expr)>;

    closed spec fn view(&self) -> Seq<(usize, Expr)> {
        Seq::new(self.pending@.len(), |i: int| (self.pending@[i].0, self.pending@[i].1@))
    }
}

impl Solutions {
    /// The number of unknowns whose value is not written yet.
    pub fn len(&self) -> (r: usize)
        ensures
            r == self@.len(),
    {
        self.pending.len()
    }

    /// The unknown whose value is to be written next, and the expression to
    /// evaluate for it: the last that is pending. `None` when all are written.
    pub fn next(&self) -> (r: Option<(usize, &Value)>)
        ensures
            match r {
                Some((unknown, expression)) => self@.len() > 0 && self@.last() == (
                    unknown,
                    expression@,
                ),
                None => self@.len() == 0,
            },
    {
        let n = self.pending.len();
        if n == 0 {
            None
        } else {
            Some((self.pending[n - 1].0, &self.pending[n - 1].1))
        }
    }

    /// Writes `value` to the unknown that `next` names and takes it off the
    /// pending ones. With nothing pending, nothing changes.
    pub fn commit(&mut self, value: Scalar, arena: &mut Variables)
        ensures
            old(self)@.len() == 0 ==> final(self)@ == old(self)@ && final(arena)@ == old(arena)@,
            old(self)@.len() > 0 ==> final(self)@ == old(self)@.drop_last(),
            old(self)@.len() > 0 && old(self)@.last().0 < old(arena)@.len() ==> final(arena)@
                == old(arena)@.update(old(self)@.last().0 as int, Some(value)),
            old(self)@.len() > 0 && old(self)@.last().0 >= old(arena)@.len() ==> final(arena)@
                == old(arena)@,
    {
        let ghost before = self@;
        match self.pending.pop() {
            Some((unknown, _)) => {
                Variable::modify(value, unknown, arena);
                assert(self@ =~= before.drop_last());
            },
            None => {
                assert(self@ =~= before);
            },
        }
    }
}

/// Solves the system for its unknowns: equation `i` for `unknowns[i]`, with
/// each solution put for its unknown in that equation and in all later ones
/// before the next is solved.
///
/// No variable is written. The result holds each unknown with its solution;
/// evaluating and writing them goes from the last to the first, by `next`
/// and `commit`.
pub fn solve(equations: Vec<(Value, Value)>, unknowns: Vec<usize>) -> (r: Result<
    Solutions,
    SolveError,
>)
    ensures
        match r {
            Ok(solved) => system_solution(equation_models(equations@), unknowns@) == Ok::<
                Seq<(usize, Expr)>,
                SolveError,
            >(solved@) && solved@.len() == unknowns.len(),
            Err(error) => system_solution(equation_models(equations@), unknowns@) == Err::<
                Seq<(usize, Expr)>,
                SolveError,
            >(error),
        },
{
    if equations.len() != unknowns.len() {
        return Err(SolveError::PreconditionViolation);
    }
    let ghost start = equation_models(equations@);
    let mut standing = equations;
    let mut solved = Solutions { pending: Vec::with_capacity(unknowns.len()) };
    let mut i: usize = 0;
    assert(solved@ =~= Seq::empty());
    while i < unknowns.len()
        invariant
            i <= unknowns.len(),
            standing.len() == unknowns.len(),
            start == equation_models(equations@),
            start.len() == unknowns.len(),
            forward(start, unknowns@, i as nat) == Ok::<
                (Seq<(Expr, Expr)>, Seq<(usize, Expr)>),
                SolveError,
            >((equation_models(standing@), solved@)),
        decreases unknowns.len() - i,
    {
        let unknown = unknowns[i];
        let ghost before = equation_models(standing@);
        let ghost found = solved@;
        assert(before[i as int] == (standing[i as int].0@, standing[i as int].1@));
        let answer = match crate::solver::solve(
            standing[i].0.clone(),
            standing[i].1.clone(),
            unknown,
        ) {
            Ok(answer) => answer,
            Err(error) => {
                assert(forward(start, unknowns@, (i + 1) as nat) == Err::<
                    (Seq<(Expr, Expr)>, Seq<(usize, Expr)>),
                    SolveError,
                >(error));
                proof {
                    lemma_forward_error_stays(start, unknowns@, (i + 1) as nat, unknowns.len() as nat);
                }
                return Err(error);
            },
        };
        let mut k: usize = i;
        while k < standing.len()
            invariant
                i <= k <= standing.len(),
                standing.len() == unknowns.len(),
                before.len() == standing.len(),
                equation_models(standing@) == eliminated(before, i as int, k as int, unknown, answer@),
            decreases standing.len() - k,
        {
            let ghost so_far = equation_models(standing@);
            assert(so_far[k as int] == (standing[k as int].0@, standing[k as int].1@));
            assert(so_far[k as int] == before[k as int]);
            let left = standing[k].0.substituted(unknown, &answer);
            let right = standing[k].1.substituted(unknown, &answer);
            standing.set(k, (left, right));
            assert forall|j: int| 0 <= j < standing.len() implies equation_models(standing@)[j]
                == eliminated(before, i as int, k + 1, unknown, answer@)[j] by {
                if j != k {
                    assert(equation_models(standing@)[j] == so_far[j]);
                }
            }
            assert(equation_models(standing@) =~= eliminated(
                before,
                i as int,
                k + 1,
                unknown,
                answer@,
            ));
            k += 1;
        }
        solved.pending.push((unknown, answer));
        assert(solved@ =~= found.push((unknown, answer@)));
        i += 1;
    }
    proof {
        lemma_forward_shape(start, unknowns@, unknowns.len() as nat);
    }
    Ok(solved)
}

/// After `steps` steps that all succeeded the system has its equations all,
/// and one solution for each of the first `steps` unknowns, in their order;
/// no solution holds its own unknown.
pub proof fn lemma_forward_shape(equations: Seq<(Expr, Expr)>, unknowns: Seq<usize>, steps: nat)
    requires
        forward(equations, unknowns, steps) is Ok,
    ensures
        forward(equations, unknowns, steps)->Ok_0.0.len() == equations.len(),
        forward(equations, unknowns, steps)->Ok_0.1.len() == steps,
        forall|j: int|
            0 <= j < steps ==> (#[trigger] forward(equations, unknowns, steps)->Ok_0.1[j]).0
                == unknowns[j] && !forward(equations, unknowns, steps)->Ok_0.1[j].1.depends_on(
                unknowns[j],
            ),
    decreases steps,
{
    if steps > 0 {
        let i = (steps - 1) as nat;
        lemma_forward_shape(equations, unknowns, i);
        let (standing, solved) = forward(equations, unknowns, i)->Ok_0;
        let answer = solution(standing[i as int].0, standing[i as int].1, unknowns[i as int])->Ok_0;
        lemma_isolate_free_of_variable(
            standing[i as int].0,
            standing[i as int].1,
            unknowns[i as int],
        );
        let after = forward(equations, unknowns, steps)->Ok_0.1;
        assert(after == solved.push((unknowns[i as int], answer)));
        assert forall|j: int| 0 <= j < steps implies (#[trigger] after[j]).0 == unknowns[j]
            && !after[j].1.depends_on(unknowns[j]) by {
            if j < i {
                assert(after[j] == solved[j]);
            }
        }
    }
}

/// Whether neither side of `equation` holds the variable `id`.
pub open spec fn free_of(equation: (Expr, Expr), id: usize) -> bool {
    !equation.0.depends_on(id) && !equation.1.depends_on(id)
}

/// Whether each of the first `steps` unknowns is gone from its own equation
/// and from all that follow.
pub open spec fn triangular(standing: Seq<(Expr, Expr)>, unknowns: Seq<usize>, steps: nat) -> bool {
    forall|j: int, k: int|
        0 <= j < steps && j <= k < standing.len() ==> free_of(
            #[trigger] standing[k],
            #[trigger] unknowns[j],
        )
}

/// Whether each solution is free of its own unknown and of those before it.
pub open spec fn forward_only(solved: Seq<(usize, Expr)>, unknowns: Seq<usize>) -> bool {
    forall|m: int, j: int|
        0 <= m <= j < solved.len() ==> !(#[trigger] solved[j]).1.depends_on(#[trigger] unknowns[m])
}

/// The forward pass eliminates: after `steps` steps that all succeeded, each
/// unknown solved so far is gone from its own equation and from all later
/// ones, and each solution names, of the unknowns, only later ones.
pub proof fn lemma_forward_eliminates(equations: Seq<(Expr, Expr)>, unknowns: Seq<usize>, steps: nat)
    requires
        forward(equations, unknowns, steps) is Ok,
        steps <= equations.len(),
        steps <= unknowns.len(),
    ensures
        triangular(forward(equations, unknowns, steps)->Ok_0.0, unknowns, steps),
        forward_only(forward(equations, unknowns, steps)->Ok_0.1, unknowns),
    decreases steps,
{
    if steps > 0 {
        let i = (steps - 1) as int;
        lemma_forward_eliminates(equations, unknowns, i as nat);
        lemma_forward_shape(equations, unknowns, i as nat);
        lemma_forward_shape(equations, unknowns, steps);
        let (standing, solved) = forward(equations, unknowns, i as nat)->Ok_0;
        let (after, found) = forward(equations, unknowns, steps)->Ok_0;
        let id = unknowns[i];
        let answer = solution(standing[i].0, standing[i].1, id)->Ok_0;
        lemma_isolate_free_of_variable(standing[i].0, standing[i].1, id);
        assert(found == solved.push((id, answer)));
        assert(after == eliminated(standing, i, standing.len() as int, id, answer));
        assert forall|m: int| 0 <= m < i implies !answer.depends_on(#[trigger] unknowns[m]) by {
            assert(free_of(standing[i], unknowns[m]));
            lemma_isolate_free_of_others(standing[i].0, standing[i].1, id, unknowns[m]);
        }
        assert forall|j: int, k: int| 0 <= j < steps && j <= k < after.len() implies free_of(
            #[trigger] after[k],
            #[trigger] unknowns[j],
        ) by {
            if k < i {
                assert(after[k] == standing[k]);
                assert(free_of(standing[k], unknowns[j]));
            } else if j < i {
                assert(free_of(standing[k], unknowns[j]));
                lemma_substitute_free(standing[k].0, id, answer, unknowns[j]);
                lemma_substitute_free(standing[k].1, id, answer, unknowns[j]);
            } else {
                lemma_substitute_eliminates(standing[k].0, id, answer);
                lemma_substitute_eliminates(standing[k].1, id, answer);
            }
        }
        assert forall|m: int, j: int| 0 <= m <= j < found.len() implies !(#[trigger] found[j]).1.depends_on(
            #[trigger] unknowns[m],
        ) by {
            if j < i {
                assert(found[j] == solved[j]);
            }
        }
    }
}

/// Once a step of the forward pass has failed, every later state of the
/// system is that failure.
pub proof fn lemma_forward_error_stays(
    equations: Seq<(Expr, Expr)>,
    unknowns: Seq<usize>,
    failed: nat,
    steps: nat,
)
    requires
        forward(equations, unknowns, failed) is Err,
        failed <= steps,
    ensures
        forward(equations, unknowns, steps) == forward(equations, unknowns, failed),
    decreases steps,
{
    if failed < steps {
        lemma_forward_error_stays(equations, unknowns, failed, (steps - 1) as nat);
    }
}

} // verus!
