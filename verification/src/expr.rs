//! The mathematical model of an expression, over which every contract of the
//! library is stated.

use vstd::prelude::*;

verus! {

/// The bits of a number without its sign bit.
pub open spec fn magnitude(bits: u64) -> u64 {
    bits & 0x7FFF_FFFF_FFFF_FFFF
}

/// Whether `bits` encodes a not-a-number: all exponent bits set and a
/// fraction that is not zero.
pub open spec fn is_nan(bits: u64) -> bool {
    magnitude(bits) > 0x7FF0_0000_0000_0000
}

/// Equality of two numbers, with every not-a-number equal to every other.
/// Apart from that, two numbers are equal when neither is a not-a-number and
/// their bits agree or both are a zero of either sign.
pub open spec fn scalars_equal(a: u64, b: u64) -> bool {
    (is_nan(a) && is_nan(b)) || (!is_nan(a) && !is_nan(b) && (a == b || (magnitude(a) == 0
        && magnitude(b) == 0)))
}

/// Whether two sequences of trees are equal member by member.
pub open spec fn all_equal(a: Seq<Expr>, b: Seq<Expr>) -> bool
    decreases a,
{
    a.len() == b.len() && (a.len() == 0 || (all_equal(a.drop_last(), b.drop_last())
        && a.last().structurally_equal(b.last())))
}

/// The bit pattern of minus one.
pub const MINUS_ONE_BITS: u64 = 0xBFF0_0000_0000_0000;

/// The bit pattern of zero.
pub const ZERO_BITS: u64 = 0;

/// The bit pattern of one.
pub const ONE_BITS: u64 = 0x3FF0_0000_0000_0000;

/// The bit pattern of Euler's number.
pub const E_BITS: u64 = 0x4005_BF0A_8B14_5769;

/// The bit pattern of the circle constant.
pub const PI_BITS: u64 = 0x4009_21FB_5444_2D18;

/// One step of an evaluation, which works on a stack of numbers.
#[derive(Clone, Copy, Debug, PartialEq, Eq, Structural)]
pub enum Step {
    /// Puts the number with these bits on the stack.
    Push(u64),
    /// Puts the value that the variable of this identity has at this moment
    /// on the stack.
    Load(usize),
    /// Takes two numbers off and puts their sum on.
    Add,
    /// Takes two numbers off and puts their product on.
    Multiply,
    /// Takes the exponent off, then the base, and puts the power on.
    Power,
    /// Takes the argument off, then the base, and puts the logarithm of the
    /// argument in that base on.
    Logarithm,
}

/// The steps that fold `terms` from the left: `start`, then each member is
/// evaluated and joined to what is there by `op`.
pub open spec fn folded(terms: Seq<Expr>, start: u64, op: Step) -> Seq<Step>
    decreases terms,
{
    if terms.len() == 0 {
        seq![Step::Push(start)]
    } else {
        folded(terms.drop_last(), start, op) + terms.last().program() + seq![op]
    }
}

/// How many numbers are on a stack of `depth` numbers after `steps`, or
/// `None` where a step finds too few to take off.
pub open spec fn depth_after(steps: Seq<Step>, depth: nat) -> Option<nat>
    decreases steps.len(),
{
    if steps.len() == 0 {
        Some(depth)
    } else {
        match depth_after(steps.drop_last(), depth) {
            None => None,
            Some(d) => match steps.last() {
                Step::Push(_) => Some(d + 1),
                Step::Load(_) => Some(d + 1),
                _ => if d >= 2 {
                    Some((d - 1) as nat)
                } else {
                    None
                },
            },
        }
    }
}

/// An expression as a mathematical tree. A number is its bit pattern, a
/// variable its identity.
pub enum Expr {
    /// The total of the members.
    Sum(Seq<Expr>),
    /// The product of the members.
    Multiplication(Seq<Expr>),
    /// Base, then exponent.
    Power(Box<Expr>, Box<Expr>),
    /// Base, then argument.
    Log(Box<Expr>, Box<Expr>),
    /// A number, by its bits.
    Scalar(u64),
    /// A variable, by its identity.
    Variable(usize),
    /// Euler's number.
    E,
    /// The circle constant.
    Pi,
}

/// The sum of the sizes of the members of `terms`.
pub open spec fn total_size(terms: Seq<Expr>) -> nat
    decreases terms,
{
    if terms.len() == 0 {
        0
    } else {
        terms.last().size() + total_size(terms.drop_last())
    }
}

/// Whether a variable leaf of identity `id` occurs in a member of `terms`.
pub open spec fn any_depends_on(terms: Seq<Expr>, id: usize) -> bool
    decreases terms,
{
    terms.len() > 0 && (any_depends_on(terms.drop_last(), id) || terms.last().depends_on(id))
}

/// `terms` itself where it has one member, else their product.
pub open spec fn packed(terms: Seq<Expr>) -> Expr {
    if terms.len() == 1 {
        terms[0]
    } else {
        Expr::Multiplication(terms)
    }
}

impl Expr {
    /// The number of nodes of the tree.
    pub open spec fn size(self) -> nat
        decreases self,
    {
        match self {
            Expr::Sum(terms) => 1 + total_size(terms),
            Expr::Multiplication(factors) => 1 + total_size(factors),
            Expr::Power(base, exponent) => 1 + base.size() + exponent.size(),
            Expr::Log(base, argument) => 1 + base.size() + argument.size(),
            _ => 1,
        }
    }

    /// Whether a variable leaf of identity `id` occurs in the tree.
    pub open spec fn depends_on(self, id: usize) -> bool
        decreases self,
    {
        match self {
            Expr::Sum(terms) => any_depends_on(terms, id),
            Expr::Multiplication(factors) => any_depends_on(factors, id),
            Expr::Power(base, exponent) => base.depends_on(id) || exponent.depends_on(id),
            Expr::Log(base, argument) => base.depends_on(id) || argument.depends_on(id),
            Expr::Variable(v) => v == id,
            _ => false,
        }
    }

    /// The evaluation of the tree as steps on a stack, which leave the
    /// tree's number on top: a sum folds its members from zero, a product
    /// from one, each from the left; a power and a logarithm evaluate the
    /// base, then the other operand; a variable is read when its step runs.
    pub open spec fn program(self) -> Seq<Step>
        decreases self,
    {
        match self {
            Expr::Sum(terms) => folded(terms, ZERO_BITS, Step::Add),
            Expr::Multiplication(factors) => folded(factors, ONE_BITS, Step::Multiply),
            Expr::Power(base, exponent) => base.program() + exponent.program() + seq![Step::Power],
            Expr::Log(base, argument) => base.program() + argument.program() + seq![
                Step::Logarithm,
            ],
            Expr::Scalar(bits) => seq![Step::Push(bits)],
            Expr::Variable(id) => seq![Step::Load(id)],
            Expr::E => seq![Step::Push(E_BITS)],
            Expr::Pi => seq![Step::Push(PI_BITS)],
        }
    }

    /// Structural equality: the same tag and, in turn, equal children.
    /// Numbers are equal as `scalars_equal` says, variables when their
    /// identities are.
    pub open spec fn structurally_equal(self, other: Expr) -> bool
        decreases self,
    {
        match self {
            Expr::Sum(terms) => other is Sum && all_equal(terms, other->Sum_0),
            Expr::Multiplication(factors) => other is Multiplication && all_equal(
                factors,
                other->Multiplication_0,
            ),
            Expr::Power(base, exponent) => other is Power && base.structurally_equal(
                *other->Power_0,
            ) && exponent.structurally_equal(*other->Power_1),
            Expr::Log(base, argument) => other is Log && base.structurally_equal(*other->Log_0)
                && argument.structurally_equal(*other->Log_1),
            Expr::Scalar(bits) => other is Scalar && scalars_equal(bits, other->Scalar_0),
            Expr::Variable(id) => other is Variable && id == other->Variable_0,
            Expr::E => other is E,
            Expr::Pi => other is Pi,
        }
    }

    /// The tree with every variable leaf of identity `id` replaced by `by`.
    pub open spec fn substitute(self, id: usize, by: Expr) -> Expr
        decreases self,
    {
        match self {
            Expr::Sum(terms) => Expr::Sum(
                Seq::new(
                    terms.len(),
                    |i: int|
                        if 0 <= i < terms.len() {
                            terms[i].substitute(id, by)
                        } else {
                            by
                        },
                ),
            ),
            Expr::Multiplication(factors) => Expr::Multiplication(
                Seq::new(
                    factors.len(),
                    |i: int|
                        if 0 <= i < factors.len() {
                            factors[i].substitute(id, by)
                        } else {
                            by
                        },
                ),
            ),
            Expr::Power(base, exponent) => Expr::Power(
                Box::new(base.substitute(id, by)),
                Box::new(exponent.substitute(id, by)),
            ),
            Expr::Log(base, argument) => Expr::Log(
                Box::new(base.substitute(id, by)),
                Box::new(argument.substitute(id, by)),
            ),
            Expr::Variable(v) => if v == id {
                by
            } else {
                self
            },
            _ => self,
        }
    }

    /// `self + rhs`: a sum on the left takes the right operand in, member by
    /// member where that is a sum too; any other left operand opens a sum of two.
    pub open spec fn plus(self, rhs: Expr) -> Expr {
        match self {
            Expr::Sum(terms) => match rhs {
                Expr::Sum(more) => Expr::Sum(terms + more),
                _ => Expr::Sum(terms.push(rhs)),
            },
            _ => Expr::Sum(seq![self, rhs]),
        }
    }

    /// `self * rhs`, flattening products as `plus` flattens sums.
    pub open spec fn times(self, rhs: Expr) -> Expr {
        match self {
            Expr::Multiplication(factors) => match rhs {
                Expr::Multiplication(more) => Expr::Multiplication(factors + more),
                _ => Expr::Multiplication(factors.push(rhs)),
            },
            _ => Expr::Multiplication(seq![self, rhs]),
        }
    }

    /// `-self`: the product with minus one, appended to a product, put in
    /// front of anything else.
    pub open spec fn negated(self) -> Expr {
        match self {
            Expr::Multiplication(factors) => Expr::Multiplication(
                factors.push(Expr::Scalar(MINUS_ONE_BITS)),
            ),
            _ => Expr::Multiplication(seq![Expr::Scalar(MINUS_ONE_BITS), self]),
        }
    }

    /// `self - rhs`: the sum with the negated right operand.
    pub open spec fn minus(self, rhs: Expr) -> Expr {
        self.plus(rhs.negated())
    }

    /// `self / rhs`: the product with `rhs` to the power of minus one.
    pub open spec fn over(self, rhs: Expr) -> Expr {
        self.times(Expr::Power(Box::new(rhs), Box::new(Expr::Scalar(MINUS_ONE_BITS))))
    }
}

/// The members of `terms` that depend on the variable `id`, in their order.
pub open spec fn related(terms: Seq<Expr>, id: usize) -> Seq<Expr> {
    terms.filter(|e: Expr| e.depends_on(id))
}

/// The members of `terms` that do not depend on the variable `id`, in their
/// order.
pub open spec fn unrelated(terms: Seq<Expr>, id: usize) -> Seq<Expr> {
    terms.filter(|e: Expr| !e.depends_on(id))
}

/// Every member of a sequence is either related or unrelated to a variable.
pub proof fn lemma_partition_len(terms: Seq<Expr>, id: usize)
    ensures
        related(terms, id).len() + unrelated(terms, id).len() == terms.len(),
    decreases terms.len(),
{
    reveal(Seq::filter);
    if terms.len() > 0 {
        lemma_partition_len(terms.drop_last(), id);
    }
}

/// Each member that a filter drops makes the total size smaller by one at
/// least.
pub proof fn lemma_filter_total_size(terms: Seq<Expr>, pred: spec_fn(Expr) -> bool)
    ensures
        total_size(terms.filter(pred)) + terms.len() - terms.filter(pred).len() <= total_size(
            terms,
        ),
        terms.filter(pred).len() <= terms.len(),
    decreases terms.len(),
{
    reveal(Seq::filter);
    if terms.len() > 0 {
        let front = terms.drop_last();
        lemma_filter_total_size(front, pred);
        assert(terms.last().size() >= 1);
        assert(total_size(terms) == terms.last().size() + total_size(front));
        if pred(terms.last()) {
            let kept = front.filter(pred).push(terms.last());
            assert(kept.drop_last() =~= front.filter(pred));
            assert(kept.last() == terms.last());
            assert(total_size(kept) == terms.last().size() + total_size(front.filter(pred)));
        }
    }
}

/// Packing fewer factors than a product has gives a smaller tree.
pub proof fn lemma_packed_filter_smaller(factors: Seq<Expr>, pred: spec_fn(Expr) -> bool)
    requires
        factors.filter(pred).len() < factors.len(),
    ensures
        packed(factors.filter(pred)).size() < Expr::Multiplication(factors).size(),
{
    let kept = factors.filter(pred);
    lemma_filter_total_size(factors, pred);
    if kept.len() == 1 {
        assert(kept.drop_last().len() == 0);
        assert(total_size(kept) == kept[0].size() + total_size(kept.drop_last()));
        assert(total_size(kept.drop_last()) == 0);
    }
}

/// Two sequences of trees are equal member by member exactly when they are
/// as long as each other and equal at every place.
pub proof fn lemma_all_equal(a: Seq<Expr>, b: Seq<Expr>)
    ensures
        all_equal(a, b) <==> a.len() == b.len() && forall|i: int|
            0 <= i < a.len() ==> (#[trigger] a[i]).structurally_equal(b[i]),
    decreases a.len(),
{
    if a.len() == b.len() && a.len() > 0 {
        let front_a = a.drop_last();
        let front_b = b.drop_last();
        lemma_all_equal(front_a, front_b);
        if all_equal(a, b) {
            assert forall|i: int| 0 <= i < a.len() implies (#[trigger] a[i]).structurally_equal(
                b[i],
            ) by {
                if i < front_a.len() {
                    assert(front_a[i] == a[i]);
                    assert(front_b[i] == b[i]);
                }
            }
        }
        if forall|i: int| 0 <= i < a.len() ==> (#[trigger] a[i]).structurally_equal(b[i]) {
            assert forall|i: int| 0 <= i < front_a.len() implies (
            #[trigger] front_a[i]).structurally_equal(front_b[i]) by {
                assert(a[i].structurally_equal(b[i]));
            }
            assert(a[a.len() - 1].structurally_equal(b[a.len() - 1]));
        }
    }
}

/// Adding twice on the left gives one sum of three members, not a sum in a
/// sum, as long as neither the first nor the last operand is a sum itself.
pub proof fn lemma_sum_flattens(a: Expr, b: Expr, c: Expr)
    requires
        !(a is Sum),
        !(c is Sum),
    ensures
        a.plus(b).plus(c) == Expr::Sum(seq![a, b, c]),
{
    assert(seq![a, b].push(c) =~= seq![a, b, c]);
}

/// Multiplying twice on the left gives one product of three factors, not a
/// product in a product, as long as neither the first nor the last operand
/// is a product itself.
pub proof fn lemma_product_flattens(a: Expr, b: Expr, c: Expr)
    requires
        !(a is Multiplication),
        !(c is Multiplication),
    ensures
        a.times(b).times(c) == Expr::Multiplication(seq![a, b, c]),
{
    assert(seq![a, b].push(c) =~= seq![a, b, c]);
}

/// Of two trees, the first without the variable and the second with it, the
/// second alone is related and the first alone unrelated.
pub proof fn lemma_partition_pair(k: Expr, v: Expr, id: usize)
    requires
        !k.depends_on(id),
        v.depends_on(id),
    ensures
        related(seq![k, v], id) == seq![v],
        unrelated(seq![k, v], id) == seq![k],
{
    let none = Seq::<Expr>::empty();
    let with = |e: Expr| e.depends_on(id);
    let without = |e: Expr| !e.depends_on(id);
    assert(none.filter(with) =~= none && none.filter(without) =~= none) by {
        reveal(Seq::filter);
    }
    none.lemma_filter_push(k, with);
    none.lemma_filter_push(k, without);
    none.push(k).lemma_filter_push(v, with);
    none.push(k).lemma_filter_push(v, without);
    assert(seq![k, v] =~= none.push(k).push(v));
    assert(seq![v] =~= none.push(v));
    assert(seq![k] =~= none.push(k));
}

/// Putting a tree without the variable for the variable leaves no leaf of
/// that variable.
pub proof fn lemma_substitute_eliminates(e: Expr, id: usize, by: Expr)
    requires
        !by.depends_on(id),
    ensures
        !e.substitute(id, by).depends_on(id),
    decreases e,
{
    match e {
        Expr::Sum(terms) => {
            let replaced = e.substitute(id, by)->Sum_0;
            lemma_any_depends_on(replaced, id);
            assert forall|i: int| 0 <= i < replaced.len() implies !(#[trigger] replaced[i]).depends_on(
                id,
            ) by {
                lemma_substitute_eliminates(terms[i], id, by);
            }
        },
        Expr::Multiplication(factors) => {
            let replaced = e.substitute(id, by)->Multiplication_0;
            lemma_any_depends_on(replaced, id);
            assert forall|i: int| 0 <= i < replaced.len() implies !(#[trigger] replaced[i]).depends_on(
                id,
            ) by {
                lemma_substitute_eliminates(factors[i], id, by);
            }
        },
        Expr::Power(base, exponent) => {
            lemma_substitute_eliminates(*base, id, by);
            lemma_substitute_eliminates(*exponent, id, by);
        },
        Expr::Log(base, argument) => {
            lemma_substitute_eliminates(*base, id, by);
            lemma_substitute_eliminates(*argument, id, by);
        },
        _ => {},
    }
}

/// Putting a tree for a variable brings in no variable that neither the tree
/// nor what is put for it holds.
pub proof fn lemma_substitute_free(e: Expr, id: usize, by: Expr, other: usize)
    requires
        !e.depends_on(other),
        !by.depends_on(other),
    ensures
        !e.substitute(id, by).depends_on(other),
    decreases e,
{
    match e {
        Expr::Sum(terms) => {
            let replaced = e.substitute(id, by)->Sum_0;
            lemma_any_depends_on(replaced, other);
            lemma_any_depends_on(terms, other);
            assert forall|i: int| 0 <= i < replaced.len() implies !(#[trigger] replaced[i]).depends_on(
                other,
            ) by {
                assert(!terms[i].depends_on(other));
                lemma_substitute_free(terms[i], id, by, other);
            }
        },
        Expr::Multiplication(factors) => {
            let replaced = e.substitute(id, by)->Multiplication_0;
            lemma_any_depends_on(replaced, other);
            lemma_any_depends_on(factors, other);
            assert forall|i: int| 0 <= i < replaced.len() implies !(#[trigger] replaced[i]).depends_on(
                other,
            ) by {
                assert(!factors[i].depends_on(other));
                lemma_substitute_free(factors[i], id, by, other);
            }
        },
        Expr::Power(base, exponent) => {
            lemma_substitute_free(*base, id, by, other);
            lemma_substitute_free(*exponent, id, by, other);
        },
        Expr::Log(base, argument) => {
            lemma_substitute_free(*base, id, by, other);
            lemma_substitute_free(*argument, id, by, other);
        },
        _ => {},
    }
}

/// Packing some of the factors of a product brings in no variable that the
/// product does not hold.
pub proof fn lemma_packed_filter_free(factors: Seq<Expr>, pred: spec_fn(Expr) -> bool, other: usize)
    requires
        !Expr::Multiplication(factors).depends_on(other),
    ensures
        !packed(factors.filter(pred)).depends_on(other),
{
    let kept = factors.filter(pred);
    lemma_any_depends_on(factors, other);
    lemma_any_depends_on(kept, other);
    assert forall|i: int| 0 <= i < kept.len() implies !(#[trigger] kept[i]).depends_on(other) by {
        assert(kept.contains(kept[i]));
        factors.lemma_filter_contains_rev(pred, kept[i]);
        let j = choose|j: int| 0 <= j < factors.len() && factors[j] == kept[i];
        assert(!factors[j].depends_on(other));
    }
}

/// Putting anything for a variable that a tree does not hold leaves the
/// tree as it is.
pub proof fn lemma_substitute_absent(e: Expr, id: usize, by: Expr)
    requires
        !e.depends_on(id),
    ensures
        e.substitute(id, by) == e,
    decreases e,
{
    match e {
        Expr::Sum(terms) => {
            let replaced = e.substitute(id, by)->Sum_0;
            lemma_any_depends_on(terms, id);
            assert forall|i: int| 0 <= i < terms.len() implies replaced[i] == terms[i] by {
                lemma_substitute_absent(terms[i], id, by);
            }
            assert(replaced =~= terms);
        },
        Expr::Multiplication(factors) => {
            let replaced = e.substitute(id, by)->Multiplication_0;
            lemma_any_depends_on(factors, id);
            assert forall|i: int| 0 <= i < factors.len() implies replaced[i] == factors[i] by {
                lemma_substitute_absent(factors[i], id, by);
            }
            assert(replaced =~= factors);
        },
        Expr::Power(base, exponent) => {
            lemma_substitute_absent(*base, id, by);
            lemma_substitute_absent(*exponent, id, by);
        },
        Expr::Log(base, argument) => {
            lemma_substitute_absent(*base, id, by);
            lemma_substitute_absent(*argument, id, by);
        },
        _ => {},
    }
}

/// The product of two trees without a variable is without it.
pub proof fn lemma_times_free(a: Expr, b: Expr, id: usize)
    requires
        !a.depends_on(id),
        !b.depends_on(id),
    ensures
        !a.times(b).depends_on(id),
{
    let factors = a.times(b)->Multiplication_0;
    lemma_any_depends_on(factors, id);
    if a is Multiplication {
        lemma_any_depends_on(a->Multiplication_0, id);
        if b is Multiplication {
            lemma_any_depends_on(b->Multiplication_0, id);
        }
    }
    assert forall|i: int| 0 <= i < factors.len() implies !(#[trigger] factors[i]).depends_on(id) by {
        if a is Multiplication {
            let front = a->Multiplication_0;
            if i < front.len() {
                assert(factors[i] == front[i]);
            } else if b is Multiplication {
                assert(factors[i] == b->Multiplication_0[i - front.len()]);
            }
        }
    }
}

/// What is divided out of a product does not hold the variable.
pub proof fn lemma_packed_unrelated_free(factors: Seq<Expr>, id: usize)
    ensures
        !packed(unrelated(factors, id)).depends_on(id),
{
    let left_out = unrelated(factors, id);
    let without = |e: Expr| !e.depends_on(id);
    lemma_any_depends_on(left_out, id);
    assert forall|i: int| 0 <= i < left_out.len() implies !(#[trigger] left_out[i]).depends_on(
        id,
    ) by {
        factors.lemma_filter_pred(without, i);
    }
}

/// Equality of numbers is an equivalence: every number, a not-a-number too,
/// equals itself, and equality goes both ways and carries over.
pub proof fn lemma_scalars_equal_is_equivalence(a: u64, b: u64, c: u64)
    ensures
        scalars_equal(a, a),
        scalars_equal(a, b) == scalars_equal(b, a),
        scalars_equal(a, b) && scalars_equal(b, c) ==> scalars_equal(a, c),
{
}

/// Every tree is structurally equal to itself.
pub proof fn lemma_structurally_equal_reflexive(e: Expr)
    ensures
        e.structurally_equal(e),
    decreases e,
{
    match e {
        Expr::Sum(terms) => {
            lemma_all_equal(terms, terms);
            assert forall|i: int| 0 <= i < terms.len() implies (#[trigger] terms[i]).structurally_equal(
                terms[i],
            ) by {
                lemma_structurally_equal_reflexive(terms[i]);
            }
        },
        Expr::Multiplication(factors) => {
            lemma_all_equal(factors, factors);
            assert forall|i: int| 0 <= i < factors.len() implies (
            #[trigger] factors[i]).structurally_equal(factors[i]) by {
                lemma_structurally_equal_reflexive(factors[i]);
            }
        },
        Expr::Power(base, exponent) => {
            lemma_structurally_equal_reflexive(*base);
            lemma_structurally_equal_reflexive(*exponent);
        },
        Expr::Log(base, argument) => {
            lemma_structurally_equal_reflexive(*base);
            lemma_structurally_equal_reflexive(*argument);
        },
        _ => {},
    }
}

/// Running two runs of steps one after the other is running the second on
/// what the first leaves.
pub proof fn lemma_depth_after_concat(a: Seq<Step>, b: Seq<Step>, depth: nat)
    ensures
        depth_after(a + b, depth) == match depth_after(a, depth) {
            None => None,
            Some(d) => depth_after(b, d),
        },
    decreases b.len(),
{
    if b.len() == 0 {
        assert(a + b =~= a);
    } else {
        assert((a + b).drop_last() =~= a + b.drop_last());
        assert((a + b).last() == b.last());
        lemma_depth_after_concat(a, b.drop_last(), depth);
    }
}

/// A single step that puts a number on the stack makes it one deeper; one
/// that joins two makes it one less deep, and needs two.
pub proof fn lemma_depth_after_one(step: Step, depth: nat)
    ensures
        depth_after(seq![step], depth) == match step {
            Step::Push(_) => Some((depth + 1) as nat),
            Step::Load(_) => Some((depth + 1) as nat),
            _ => if depth >= 2 {
                Some((depth - 1) as nat)
            } else {
                None
            },
        },
{
    let one = seq![step];
    assert(one.drop_last().len() == 0);
    assert(depth_after(one.drop_last(), depth) == Some(depth));
    assert(one.last() == step);
}

/// The fold of a sequence of trees never finds the stack too shallow and
/// leaves it one number deeper.
pub proof fn lemma_folded_depth(terms: Seq<Expr>, start: u64, op: Step, depth: nat)
    requires
        op == Step::Add || op == Step::Multiply,
    ensures
        depth_after(folded(terms, start, op), depth) == Some((depth + 1) as nat),
    decreases terms, 0nat,
{
    if terms.len() == 0 {
        lemma_depth_after_one(Step::Push(start), depth);
    } else {
        let front = folded(terms.drop_last(), start, op);
        let member = terms.last().program();
        lemma_folded_depth(terms.drop_last(), start, op, depth);
        lemma_program_depth(terms.last(), (depth + 1) as nat);
        lemma_depth_after_concat(front, member, depth);
        lemma_depth_after_one(op, (depth + 2) as nat);
        lemma_depth_after_concat(front + member, seq![op], depth);
    }
}

/// The evaluation of a tree never finds the stack too shallow and leaves it
/// one number deeper, whatever was on it: the number of the tree.
pub proof fn lemma_program_depth(e: Expr, depth: nat)
    ensures
        depth_after(e.program(), depth) == Some((depth + 1) as nat),
    decreases e, 1nat,
{
    match e {
        Expr::Sum(terms) => {
            lemma_folded_depth(terms, ZERO_BITS, Step::Add, depth);
        },
        Expr::Multiplication(factors) => {
            lemma_folded_depth(factors, ONE_BITS, Step::Multiply, depth);
        },
        Expr::Power(base, exponent) => {
            lemma_program_depth(*base, depth);
            lemma_program_depth(*exponent, (depth + 1) as nat);
            lemma_depth_after_concat(base.program(), exponent.program(), depth);
            lemma_depth_after_one(Step::Power, (depth + 2) as nat);
            lemma_depth_after_concat(base.program() + exponent.program(), seq![Step::Power], depth);
        },
        Expr::Log(base, argument) => {
            lemma_program_depth(*base, depth);
            lemma_program_depth(*argument, (depth + 1) as nat);
            lemma_depth_after_concat(base.program(), argument.program(), depth);
            lemma_depth_after_one(Step::Logarithm, (depth + 2) as nat);
            lemma_depth_after_concat(
                base.program() + argument.program(),
                seq![Step::Logarithm],
                depth,
            );
        },
        Expr::Scalar(bits) => {
            lemma_depth_after_one(Step::Push(bits), depth);
        },
        Expr::Variable(id) => {
            lemma_depth_after_one(Step::Load(id), depth);
        },
        Expr::E => {
            lemma_depth_after_one(Step::Push(E_BITS), depth);
        },
        Expr::Pi => {
            lemma_depth_after_one(Step::Push(PI_BITS), depth);
        },
    }
}

/// A sequence of trees depends on a variable exactly when one member does.
pub proof fn lemma_any_depends_on(members: Seq<Expr>, id: usize)
    ensures
        any_depends_on(members, id) <==> exists|i: int|
            0 <= i < members.len() && (#[trigger] members[i]).depends_on(id),
    decreases members.len(),
{
    if members.len() > 0 {
        let front = members.drop_last();
        lemma_any_depends_on(front, id);
        if any_depends_on(front, id) {
            let i = choose|i: int| 0 <= i < front.len() && (#[trigger] front[i]).depends_on(id);
            assert(members[i].depends_on(id));
        } else if members.last().depends_on(id) {
            assert(members[members.len() - 1].depends_on(id));
        } else {
            assert forall|i: int| 0 <= i < members.len() implies !(#[trigger] members[i]).depends_on(
                id,
            ) by {
                if i < front.len() {
                    assert(front[i] == members[i]);
                }
            }
        }
    }
}

} // verus!
