//! Numbers, variables and expression trees, with the operations that build
//! and inspect them.

use crate::expr::{
    folded, is_nan, lemma_all_equal, lemma_any_depends_on, scalars_equal, Expr, Step, E_BITS,
    MINUS_ONE_BITS, ONE_BITS, PI_BITS, ZERO_BITS,
};
use vstd::prelude::*;

verus! {

/// A number, held as its IEEE 754 binary64 bit pattern.
#[derive(Clone, Copy, Debug)]
pub struct Scalar(pub u64);

impl Scalar {
    /// The number with the given bit pattern.
    pub fn from_bits(bits: u64) -> (r: Scalar)
        ensures
            r.0 == bits,
    {
        Scalar(bits)
    }

    /// The bit pattern of the number.
    pub fn to_bits(&self) -> (r: u64)
        ensures
            r == self.0,
    {
        self.0
    }

    /// Whether the number is a not-a-number.
    pub fn is_nan(&self) -> (r: bool)
        ensures
            r == is_nan(self.0),
    {
        (self.0 & 0x7FFF_FFFF_FFFF_FFFF) > 0x7FF0_0000_0000_0000
    }
}

impl PartialEq for Scalar {
    fn eq(&self, other: &Self) -> (r: bool) {
        let a: u64 = self.0 & 0x7FFF_FFFF_FFFF_FFFF;
        let b: u64 = other.0 & 0x7FFF_FFFF_FFFF_FFFF;
        let a_nan = a > 0x7FF0_0000_0000_0000;
        let b_nan = b > 0x7FF0_0000_0000_0000;
        (a_nan && b_nan) || (!a_nan && !b_nan && (self.0 == other.0 || (a == 0 && b == 0)))
    }
}

impl vstd::std_specs::cmp::PartialEqSpecImpl for Scalar {
    open spec fn obeys_eq_spec() -> bool {
        true
    }

    open spec fn eq_spec(&self, other: &Self) -> bool {
        scalars_equal(self.0, other.0)
    }
}

impl Eq for Scalar {

}

/// A variable: an identity and a current value.
#[derive(Clone, Copy, Debug)]
pub struct Variable {
    pub id: usize,
    pub value: Scalar,
}

impl PartialEq for Variable {
    fn eq(&self, other: &Self) -> (r: bool) {
        self.id == other.id && self.value.eq(&other.value)
    }
}

impl vstd::std_specs::cmp::PartialEqSpecImpl for Variable {
    open spec fn obeys_eq_spec() -> bool {
        true
    }

    open spec fn eq_spec(&self, other: &Self) -> bool {
        self.id == other.id && scalars_equal(self.value.0, other.value.0)
    }
}

impl Eq for Variable {

}

/// The arena in which variables live. A variable's identity is its place in
/// the arena: identities are handed out in rising order and never again. A
/// place holds the variable's current value once the variable is kept in the
/// arena, and nothing while only its identity is taken.
pub struct Variables {
    cells: Vec<Option<Scalar>>,
}

impl View for Variables {
    type V = Seq<Option<Scalar>>;

    closed spec fn view(&self) -> Seq<Option<Scalar>> {
        self.cells@
    }
}

impl Variables {
    /// An arena without variables.
    pub fn new() -> (r: Variables)
        ensures
            r@.len() == 0,
    {
        Variables { cells: Vec::new() }
    }

    /// The number of identities handed out so far.
    pub fn len(&self) -> (r: usize)
        ensures
            r == self@.len(),
    {
        self.cells.len()
    }

    /// The variable of identity `id` as it is now, if the arena keeps it.
    pub fn get(&self, id: usize) -> (r: Option<Variable>)
        ensures
            r == if id < self@.len() && self@[id as int] is Some {
                Some(Variable { id, value: self@[id as int]->0 })
            } else {
                None
            },
    {
        if id < self.cells.len() {
            match self.cells[id] {
                Some(value) => Some(Variable { id, value }),
                None => None,
            }
        } else {
            None
        }
    }
}

impl Variable {
    /// Takes the next identity of the arena. No later call gives it again.
    pub fn unique_id(arena: &mut Variables) -> (id: usize)
        ensures
            id == old(arena)@.len(),
            final(arena)@ == old(arena)@.push(None),
    {
        let id = arena.cells.len();
        arena.cells.push(None);
        id
    }

    /// The variable record of the given identity and value.
    pub fn with_id(id: usize, value: Scalar) -> (r: Variable)
        ensures
            r == (Variable { id, value }),
    {
        Variable { id, value }
    }

    /// A variable record with a fresh identity, which the arena does not keep.
    pub fn new(value: Scalar, arena: &mut Variables) -> (r: Variable)
        ensures
            r == (Variable { id: old(arena)@.len() as usize, value }),
            final(arena)@ == old(arena)@.push(None),
    {
        let id = Variable::unique_id(arena);
        Variable { id, value }
    }

    /// Creates a variable with a fresh identity, keeps it in the arena and
    /// returns its identity, by which expressions name it.
    pub fn new_contained(value: Scalar, arena: &mut Variables) -> (id: usize)
        ensures
            id == old(arena)@.len(),
            final(arena)@ == old(arena)@.push(Some(value)),
    {
        let id = arena.cells.len();
        arena.cells.push(Some(value));
        id
    }

    /// Gives the variable of identity `variable` the value `value`. Its
    /// identity and every other variable stay as they are. An identity that
    /// the arena never handed out changes nothing.
    pub fn modify(value: Scalar, variable: usize, arena: &mut Variables)
        ensures
            final(arena)@ == if variable < old(arena)@.len() {
                old(arena)@.update(variable as int, Some(value))
            } else {
                old(arena)@
            },
    {
        if variable < arena.cells.len() {
            arena.cells.set(variable, Some(value));
        }
    }
}

/// An expression node.
#[derive(Debug)]
pub enum Value {
    /// The total of the children, in their order.
    Sum(Vec<Value>),
    /// The product of the children, in their order.
    Multiplication(Vec<Value>),
    /// The base raised to the exponent.
    Power(Box<Value>, Box<Value>),
    /// The logarithm, in the base that comes first, of the argument that
    /// comes second.
    Log(Box<Value>, Box<Value>),
    /// A number.
    Scalar(Scalar),
    /// The variable of this identity, whose value the arena holds.
    Variable(usize),
    /// Euler's number.
    E,
    /// The circle constant.
    Pi,
}

impl Value {
    /// The tree that the node stands for.
    pub open spec fn model(&self) -> Expr
        decreases self,
    {
        match self {
            Value::Sum(values) => Expr::Sum(
                Seq::new(
                    values.len() as nat,
                    |i: int|
                        if 0 <= i < values.len() {
                            values[i].model()
                        } else {
                            Expr::E
                        },
                ),
            ),
            Value::Multiplication(values) => Expr::Multiplication(
                Seq::new(
                    values.len() as nat,
                    |i: int|
                        if 0 <= i < values.len() {
                            values[i].model()
                        } else {
                            Expr::E
                        },
                ),
            ),
            Value::Power(base, exponent) => Expr::Power(
                Box::new(base.model()),
                Box::new(exponent.model()),
            ),
            Value::Log(base, argument) => Expr::Log(
                Box::new(base.model()),
                Box::new(argument.model()),
            ),
            Value::Scalar(scalar) => Expr::Scalar(scalar.0),
            Value::Variable(id) => Expr::Variable(*id),
            Value::E => Expr::E,
            Value::Pi => Expr::Pi,
        }
    }
}

impl From<Scalar> for Value {
    fn from(scalar: Scalar) -> (r: Value) {
        Value::Scalar(scalar)
    }
}

impl vstd::std_specs::convert::FromSpecImpl<Scalar> for Value {
    open spec fn obeys_from_spec() -> bool {
        true
    }

    open spec fn from_spec(scalar: Scalar) -> Value {
        Value::Scalar(scalar)
    }
}

/// The trees that the nodes of `values` stand for, in their order.
pub open spec fn models(values: Seq<Value>) -> Seq<Expr> {
    Seq::new(values.len(), |i: int| values[i].model())
}

/// A sum or product node stands for the sum or product of what its children
/// stand for.
pub proof fn lemma_model_of_children(values: Vec<Value>)
    ensures
        Value::Sum(values).model() == Expr::Sum(models(values@)),
        Value::Multiplication(values).model() == Expr::Multiplication(models(values@)),
{
    let viewed = models(values@);
    assert(Value::Sum(values).model()->Sum_0 =~= viewed);
    assert(Value::Multiplication(values).model()->Multiplication_0 =~= viewed);
}

/// Copies of the nodes of `values`.
fn clone_all(values: &Vec<Value>) -> (r: Vec<Value>)
    ensures
        models(r@) == models(values@),
    decreases values,
{
    let mut copies: Vec<Value> = Vec::new();
    let mut i: usize = 0;
    while i < values.len()
        invariant
            i <= values.len(),
            copies.len() == i,
            forall|j: int| 0 <= j < i ==> (#[trigger] copies[j]).model() == values[j].model(),
        decreases values.len() - i,
    {
        let copy = values[i].clone();
        copies.push(copy);
        i += 1;
    }
    assert(models(copies@) =~= models(values@));
    copies
}

impl Clone for Value {
    /// A copy of the tree. A variable leaf of the copy names the same variable.
    fn clone(&self) -> (r: Value)
        ensures
            r@ == self@,
        decreases self,
    {
        match self {
            Value::Sum(values) => {
                let copies = clone_all(values);
                proof {
                    lemma_model_of_children(*values);
                    lemma_model_of_children(copies);
                }
                Value::Sum(copies)
            },
            Value::Multiplication(values) => {
                let copies = clone_all(values);
                proof {
                    lemma_model_of_children(*values);
                    lemma_model_of_children(copies);
                }
                Value::Multiplication(copies)
            },
            Value::Power(base, exponent) => Value::Power(
                Box::new((**base).clone()),
                Box::new((**exponent).clone()),
            ),
            Value::Log(base, argument) => Value::Log(
                Box::new((**base).clone()),
                Box::new((**argument).clone()),
            ),
            Value::Scalar(scalar) => Value::Scalar(*scalar),
            Value::Variable(id) => Value::Variable(*id),
            Value::E => Value::E,
            Value::Pi => Value::Pi,
        }
    }
}

/// Appends to `out` the steps that fold `values` from `start` by `op`.
fn emit_folded(values: &Vec<Value>, start: u64, op: Step, out: &mut Vec<Step>)
    ensures
        final(out)@ == old(out)@ + folded(models(values@), start, op),
    decreases values,
{
    let ghost begin = out@;
    let ghost all = models(values@);
    out.push(Step::Push(start));
    assert(out@ =~= begin + folded(all.take(0), start, op));
    let mut i: usize = 0;
    while i < values.len()
        invariant
            i <= values.len(),
            all == models(values@),
            out@ == begin + folded(all.take(i as int), start, op),
        decreases values.len() - i,
    {
        values[i].emit(out);
        out.push(op);
        proof {
            let seen = all.take(i + 1);
            assert(seen.drop_last() =~= all.take(i as int));
            assert(seen.last() == values[i as int]@);
            assert(out@ =~= begin + folded(seen, start, op));
        }
        i += 1;
    }
    assert(all.take(values.len() as int) =~= all);
}

/// Whether a node of `values` depends on the variable `variable_id`.
fn any_depends_on(values: &Vec<Value>, variable_id: usize) -> (r: bool)
    ensures
        r == exists|i: int|
            0 <= i < values.len() && (#[trigger] models(values@)[i]).depends_on(variable_id),
    decreases values,
{
    let mut i: usize = 0;
    while i < values.len()
        invariant
            i <= values.len(),
            forall|j: int| 0 <= j < i ==> !(#[trigger] models(values@)[j]).depends_on(variable_id),
        decreases values.len() - i,
    {
        if values[i].depends_on(variable_id) {
            assert(models(values@)[i as int].depends_on(variable_id));
            return true;
        }
        i += 1;
    }
    false
}

/// The nodes of `values`, each with the variable `variable_id` replaced by a
/// copy of `replacement`.
fn substituted_all(values: &Vec<Value>, variable_id: usize, replacement: &Value) -> (r: Vec<Value>)
    ensures
        r.len() == values.len(),
        forall|i: int|
            0 <= i < values.len() ==> (#[trigger] models(r@)[i]) == models(values@)[i].substitute(
                variable_id,
                replacement@,
            ),
    decreases values,
{
    let mut replaced: Vec<Value> = Vec::new();
    let mut i: usize = 0;
    while i < values.len()
        invariant
            i <= values.len(),
            replaced.len() == i,
            forall|j: int|
                0 <= j < i ==> (#[trigger] replaced[j]).model() == values[j].model().substitute(
                    variable_id,
                    replacement@,
                ),
        decreases values.len() - i,
    {
        let node = values[i].substituted(variable_id, replacement);
        replaced.push(node);
        i += 1;
    }
    replaced
}

impl Value {
    /// Appends the evaluation of the tree to `out`.
    fn emit(&self, out: &mut Vec<Step>)
        ensures
            final(out)@ == old(out)@ + self@.program(),
        decreases self,
    {
        let ghost begin = out@;
        match self {
            Value::Sum(values) => {
                proof {
                    lemma_model_of_children(*values);
                }
                emit_folded(values, ZERO_BITS, Step::Add, out);
            },
            Value::Multiplication(values) => {
                proof {
                    lemma_model_of_children(*values);
                }
                emit_folded(values, ONE_BITS, Step::Multiply, out);
            },
            Value::Power(base, exponent) => {
                base.emit(out);
                exponent.emit(out);
                out.push(Step::Power);
            },
            Value::Log(base, argument) => {
                base.emit(out);
                argument.emit(out);
                out.push(Step::Logarithm);
            },
            Value::Scalar(scalar) => {
                out.push(Step::Push(scalar.0));
            },
            Value::Variable(id) => {
                out.push(Step::Load(*id));
            },
            Value::E => {
                out.push(Step::Push(E_BITS));
            },
            Value::Pi => {
                out.push(Step::Push(PI_BITS));
            },
        }
        assert(out@ =~= begin + self@.program());
    }

    /// The evaluation of the tree: the steps that, run in their order on a
    /// stack of numbers, leave the number of the tree on top. The steps hold
    /// no value of a variable: each is read when its step runs.
    pub fn evaluate(&self) -> (r: Vec<Step>)
        ensures
            r@ == self@.program(),
    {
        let mut steps: Vec<Step> = Vec::new();
        self.emit(&mut steps);
        assert(steps@ =~= self@.program());
        steps
    }

    /// Whether the tree holds a variable leaf of identity `variable_id`.
    pub fn depends_on(&self, variable_id: usize) -> (r: bool)
        ensures
            r == self@.depends_on(variable_id),
        decreases self,
    {
        match self {
            Value::Sum(values) => {
                proof {
                    lemma_model_of_children(*values);
                    assert(self@ == Expr::Sum(models(values@)));
                    assert(models(values@).len() == values.len());
                }
                proof {
                    lemma_any_depends_on(models(values@), variable_id);
                }
                any_depends_on(values, variable_id)
            },
            Value::Multiplication(values) => {
                proof {
                    lemma_model_of_children(*values);
                    assert(self@ == Expr::Multiplication(models(values@)));
                    assert(models(values@).len() == values.len());
                }
                proof {
                    lemma_any_depends_on(models(values@), variable_id);
                }
                any_depends_on(values, variable_id)
            },
            Value::Power(base, exponent) => {
                let r = base.depends_on(variable_id) || exponent.depends_on(variable_id);
                assert(r == self@.depends_on(variable_id));
                r
            },
            Value::Log(base, argument) => {
                let r = base.depends_on(variable_id) || argument.depends_on(variable_id);
                assert(r == self@.depends_on(variable_id));
                r
            },
            Value::Scalar(_) => false,
            Value::Variable(id) => *id == variable_id,
            Value::E => false,
            Value::Pi => false,
        }
    }

    /// A copy of the tree in which a copy of `replacement` stands for every
    /// variable leaf of identity `variable_id`.
    pub fn substituted(&self, variable_id: usize, replacement: &Value) -> (r: Value)
        ensures
            r@ == self@.substitute(variable_id, replacement@),
        decreases self,
    {
        match self {
            Value::Sum(values) => {
                let replaced = substituted_all(values, variable_id, replacement);
                proof {
                    lemma_model_of_children(*values);
                    lemma_model_of_children(replaced);
                    assert(models(replaced@) =~= self@.substitute(variable_id, replacement@)->Sum_0);
                }
                Value::Sum(replaced)
            },
            Value::Multiplication(values) => {
                let replaced = substituted_all(values, variable_id, replacement);
                proof {
                    lemma_model_of_children(*values);
                    lemma_model_of_children(replaced);
                    assert(models(replaced@) =~= self@.substitute(
                        variable_id,
                        replacement@,
                    )->Multiplication_0);
                }
                Value::Multiplication(replaced)
            },
            Value::Power(base, exponent) => Value::Power(
                Box::new(base.substituted(variable_id, replacement)),
                Box::new(exponent.substituted(variable_id, replacement)),
            ),
            Value::Log(base, argument) => Value::Log(
                Box::new(base.substituted(variable_id, replacement)),
                Box::new(argument.substituted(variable_id, replacement)),
            ),
            Value::Scalar(scalar) => Value::Scalar(*scalar),
            Value::Variable(id) => if *id == variable_id {
                replacement.clone()
            } else {
                Value::Variable(*id)
            },
            Value::E => Value::E,
            Value::Pi => Value::Pi,
        }
    }

    /// Replaces every variable leaf of identity `variable_id` by a copy of
    /// `replacement`, and leaves the rest of the tree as it is.
    pub fn substitute(&mut self, variable_id: usize, replacement: Value)
        ensures
            final(self)@ == old(self)@.substitute(variable_id, replacement@),
    {
        let replaced = self.substituted(variable_id, &replacement);
        *self = replaced;
    }

    pub fn is_sum(&self) -> (r: bool)
        ensures
            r == (self@ is Sum),
    {
        matches!(self, Value::Sum(_))
    }

    pub fn is_multiplication(&self) -> (r: bool)
        ensures
            r == (self@ is Multiplication),
    {
        matches!(self, Value::Multiplication(_))
    }

    pub fn is_power(&self) -> (r: bool)
        ensures
            r == (self@ is Power),
    {
        matches!(self, Value::Power(_, _))
    }

    pub fn is_log(&self) -> (r: bool)
        ensures
            r == (self@ is Log),
    {
        matches!(self, Value::Log(_, _))
    }

    pub fn is_scalar(&self) -> (r: bool)
        ensures
            r == (self@ is Scalar),
    {
        matches!(self, Value::Scalar(_))
    }

    pub fn is_variable(&self) -> (r: bool)
        ensures
            r == (self@ is Variable),
    {
        matches!(self, Value::Variable(_))
    }

    pub fn is_e(&self) -> (r: bool)
        ensures
            r == (self@ is E),
    {
        matches!(self, Value::E)
    }

    pub fn is_pi(&self) -> (r: bool)
        ensures
            r == (self@ is Pi),
    {
        matches!(self, Value::Pi)
    }

    /// `self` raised to `exponent`, as it stands.
    pub fn pow(self, exponent: Value) -> (r: Value)
        ensures
            r@ == Expr::Power(Box::new(self@), Box::new(exponent@)),
    {
        Value::Power(Box::new(self), Box::new(exponent))
    }

    /// The logarithm of `self` in base `base`, as it stands.
    pub fn log(self, base: Value) -> (r: Value)
        ensures
            r@ == Expr::Log(Box::new(base@), Box::new(self@)),
    {
        Value::Log(Box::new(base), Box::new(self))
    }

    /// `self + rhs`. A sum on the left takes `rhs` in: its members where it
    /// is a sum itself, else `rhs` as one member.
    pub fn add(self, rhs: Value) -> (r: Value)
        ensures
            r@ == self@.plus(rhs@),
    {
        match self {
            Value::Sum(mut values) => {
                proof {
                    lemma_model_of_children(values);
                }
                let ghost before = values@;
                match rhs {
                    Value::Sum(mut rhs_values) => {
                        proof {
                            lemma_model_of_children(rhs_values);
                        }
                        let ghost more = rhs_values@;
                        values.append(&mut rhs_values);
                        proof {
                            lemma_model_of_children(values);
                            assert(models(values@) =~= models(before) + models(more));
                        }
                        Value::Sum(values)
                    },
                    _ => {
                        values.push(rhs);
                        proof {
                            lemma_model_of_children(values);
                            assert(models(values@) =~= models(before).push(rhs@));
                        }
                        Value::Sum(values)
                    },
                }
            },
            _ => {
                let ghost left = self@;
                let values = vec![self, rhs];
                proof {
                    lemma_model_of_children(values);
                    assert(models(values@) =~= seq![left, rhs@]);
                }
                Value::Sum(values)
            },
        }
    }

    /// `-self`: the product with minus one.
    pub fn neg(self) -> (r: Value)
        ensures
            r@ == self@.negated(),
    {
        match self {
            Value::Multiplication(mut values) => {
                proof {
                    lemma_model_of_children(values);
                }
                let ghost before = values@;
                values.push(Value::Scalar(Scalar(MINUS_ONE_BITS)));
                proof {
                    lemma_model_of_children(values);
                    assert(models(values@) =~= models(before).push(Expr::Scalar(MINUS_ONE_BITS)));
                }
                Value::Multiplication(values)
            },
            _ => {
                let ghost operand = self@;
                let values = vec![Value::Scalar(Scalar(MINUS_ONE_BITS)), self];
                proof {
                    lemma_model_of_children(values);
                    assert(models(values@) =~= seq![Expr::Scalar(MINUS_ONE_BITS), operand]);
                }
                Value::Multiplication(values)
            },
        }
    }

    /// `self - rhs`: the sum of `self` and `-rhs`.
    pub fn sub(self, rhs: Value) -> (r: Value)
        ensures
            r@ == self@.minus(rhs@),
    {
        self.add(rhs.neg())
    }

    /// `self * rhs`, flattening products as `add` flattens sums.
    pub fn mul(self, rhs: Value) -> (r: Value)
        ensures
            r@ == self@.times(rhs@),
    {
        match self {
            Value::Multiplication(mut values) => {
                proof {
                    lemma_model_of_children(values);
                }
                let ghost before = values@;
                match rhs {
                    Value::Multiplication(mut rhs_values) => {
                        proof {
                            lemma_model_of_children(rhs_values);
                        }
                        let ghost more = rhs_values@;
                        values.append(&mut rhs_values);
                        proof {
                            lemma_model_of_children(values);
                            assert(models(values@) =~= models(before) + models(more));
                        }
                        Value::Multiplication(values)
                    },
                    _ => {
                        values.push(rhs);
                        proof {
                            lemma_model_of_children(values);
                            assert(models(values@) =~= models(before).push(rhs@));
                        }
                        Value::Multiplication(values)
                    },
                }
            },
            _ => {
                let ghost left = self@;
                let values = vec![self, rhs];
                proof {
                    lemma_model_of_children(values);
                    assert(models(values@) =~= seq![left, rhs@]);
                }
                Value::Multiplication(values)
            },
        }
    }

    /// `self / rhs`: the product of `self` and `rhs` to the power of minus one.
    pub fn div(self, rhs: Value) -> (r: Value)
        ensures
            r@ == self@.over(rhs@),
    {
        self.mul(rhs.pow(Value::Scalar(Scalar(MINUS_ONE_BITS))))
    }
}

/// Whether the nodes of `a` and `b` are equal one by one.
fn all_equal(a: &Vec<Value>, b: &Vec<Value>) -> (r: bool)
    ensures
        r == crate::expr::all_equal(models(a@), models(b@)),
    decreases a,
{
    proof {
        lemma_all_equal(models(a@), models(b@));
    }
    if a.len() != b.len() {
        return false;
    }
    let mut i: usize = 0;
    while i < a.len()
        invariant
            i <= a.len(),
            a.len() == b.len(),
            forall|j: int|
                0 <= j < i ==> (#[trigger] models(a@)[j]).structurally_equal(models(b@)[j]),
        decreases a.len() - i,
    {
        if !a[i].eq(&b[i]) {
            proof {
                lemma_all_equal(models(a@), models(b@));
                assert(!models(a@)[i as int].structurally_equal(models(b@)[i as int]));
            }
            return false;
        }
        i += 1;
    }
    proof {
        lemma_all_equal(models(a@), models(b@));
    }
    true
}

impl PartialEq for Value {
    fn eq(&self, other: &Self) -> (r: bool)
        decreases self,
    {
        match (self, other) {
            (Value::Sum(a), Value::Sum(b)) => {
                proof {
                    lemma_model_of_children(*a);
                    lemma_model_of_children(*b);
                }
                all_equal(a, b)
            },
            (Value::Multiplication(a), Value::Multiplication(b)) => {
                proof {
                    lemma_model_of_children(*a);
                    lemma_model_of_children(*b);
                }
                all_equal(a, b)
            },
            (Value::Power(base, exponent), Value::Power(other_base, other_exponent)) => {
                (**base).eq(&**other_base) && (**exponent).eq(&**other_exponent)
            },
            (Value::Log(base, argument), Value::Log(other_base, other_argument)) => {
                (**base).eq(&**other_base) && (**argument).eq(&**other_argument)
            },
            (Value::Scalar(a), Value::Scalar(b)) => a.eq(b),
            (Value::Variable(a), Value::Variable(b)) => *a == *b,
            (Value::E, Value::E) => true,
            (Value::Pi, Value::Pi) => true,
            _ => false,
        }
    }
}

impl vstd::std_specs::cmp::PartialEqSpecImpl for Value {
    open spec fn obeys_eq_spec() -> bool {
        true
    }

    open spec fn eq_spec(&self, other: &Self) -> bool {
        self@.structurally_equal(other@)
    }
}

impl Eq for Value {

}

impl View for Value {
    type V = Expr;

    open spec fn view(&self) -> Expr {
        self.model()
    }
}

} // verus!
