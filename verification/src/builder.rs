//! Construction of circuits. The builder owns the graph, folds constants as
//! soon as two of them are combined, and never holds the same expression
//! twice: asking again for an expression that exists hands back the node that
//! already computes it.

use crate::circuit::base_valued;
use crate::circuit::caches_agree;
use crate::circuit::degree_of;
use crate::circuit::lemma_attributes_of_prefix;
use crate::circuit::roots_in_range;
use crate::circuit::single_row;
use crate::circuit::well_formed;
use crate::circuit::BinOp;
use crate::circuit::CircuitExpression;
use crate::circuit::InputIndicator;
use crate::circuit::Multicircuit;
use crate::circuit::Row;
use crate::field::bfe_add;
use crate::field::bfe_canonical;
use crate::field::bfe_mul;
use crate::field::ext_product;
use crate::field::ext_sum;
use crate::field::lift;
use crate::field::lifted;
use crate::field::reduce;
use crate::field::xfe_add;
use crate::field::xfe_mul;
use crate::field::ExtensionElement;
use crate::field::P;
use vstd::prelude::*;

verus! {

/// No expression is held by two nodes.
pub open spec fn all_distinct(exprs: Seq<CircuitExpression>) -> bool {
    forall|i: int, j: int| 0 <= i < j < exprs.len() ==> exprs[i] != exprs[j]
}

/// `e` does not combine two constants.
pub open spec fn is_folded(exprs: Seq<CircuitExpression>, e: CircuitExpression) -> bool {
    match e {
        CircuitExpression::BinaryOperation(_, l, r) => {
            l < exprs.len() && r < exprs.len() ==> !(exprs[l as int].is_constant()
                && exprs[r as int].is_constant())
        },
        _ => true,
    }
}

/// No node combines two constants.
pub open spec fn all_folded(exprs: Seq<CircuitExpression>) -> bool {
    forall|n: int| 0 <= n < exprs.len() ==> is_folded(exprs, #[trigger] exprs[n])
}

/// The result of `op` on two base field constants.
pub open spec fn base_result(op: BinOp, x: u64, y: u64) -> u64 {
    match op {
        BinOp::Add => reduce(x + y) as u64,
        BinOp::Mul => reduce(x * y) as u64,
    }
}

/// The result of `op` on two extension field constants.
pub open spec fn ext_result(op: BinOp, x: ExtensionElement, y: ExtensionElement)
    -> ExtensionElement {
    let c = match op {
        BinOp::Add => ext_sum(x, y),
        BinOp::Mul => ext_product(x, y),
    };
    ExtensionElement { c0: c.0 as u64, c1: c.1 as u64, c2: c.2 as u64 }
}

/// What combining nodes `a` and `b` by `op` computes: a constant if both are
/// constants (of the extension field unless both are of the base field), the
/// binary operation otherwise.
pub open spec fn combined(exprs: Seq<CircuitExpression>, op: BinOp, a: usize, b: usize)
    -> CircuitExpression {
    match (exprs[a as int], exprs[b as int]) {
        (CircuitExpression::BConstant(x), CircuitExpression::BConstant(y)) => {
            CircuitExpression::BConstant(base_result(op, x, y))
        },
        (CircuitExpression::BConstant(x), CircuitExpression::XConstant(y)) => {
            CircuitExpression::XConstant(ext_result(op, lifted(x), y))
        },
        (CircuitExpression::XConstant(x), CircuitExpression::BConstant(y)) => {
            CircuitExpression::XConstant(ext_result(op, x, lifted(y)))
        },
        (CircuitExpression::XConstant(x), CircuitExpression::XConstant(y)) => {
            CircuitExpression::XConstant(ext_result(op, x, y))
        },
        _ => CircuitExpression::BinaryOperation(op, a, b),
    }
}

/// The graph after `e` has been asked for: unchanged if some node holds `e`,
/// longer by one node otherwise.
pub open spec fn interned(exprs: Seq<CircuitExpression>, e: CircuitExpression) -> Seq<
    CircuitExpression,
> {
    if exprs.contains(e) {
        exprs
    } else {
        exprs.push(e)
    }
}

/// The degree that a node holding `e` has in a graph whose earlier nodes are
/// `exprs`.
pub open spec fn degree_at_end(exprs: Seq<CircuitExpression>, e: CircuitExpression) -> nat {
    degree_of(exprs.push(e), exprs.len() as int)
}

/// The base field constant -1.
pub open spec fn minus_one() -> CircuitExpression {
    CircuitExpression::BConstant((P - 1) as u64)
}

/// What negating node `a` computes: the product of the constant -1 and `a`.
pub open spec fn negation(exprs: Seq<CircuitExpression>, a: usize) -> CircuitExpression {
    let with_constant = interned(exprs, minus_one());
    combined(with_constant, BinOp::Mul, with_constant.index_of(minus_one()) as usize, a)
}

/// The graph after node `a` has been negated.
pub open spec fn graph_with_negation(exprs: Seq<CircuitExpression>, a: usize) -> Seq<
    CircuitExpression,
> {
    interned(interned(exprs, minus_one()), negation(exprs, a))
}

/// What subtracting node `b` from node `a` computes: the sum of `a` and the
/// negation of `b`.
pub open spec fn difference(exprs: Seq<CircuitExpression>, a: usize, b: usize)
    -> CircuitExpression {
    let with_negation = graph_with_negation(exprs, b);
    combined(
        with_negation,
        BinOp::Add,
        a,
        with_negation.index_of(negation(exprs, b)) as usize,
    )
}

/// The graph after node `b` has been subtracted from node `a`.
pub open spec fn graph_with_difference(exprs: Seq<CircuitExpression>, a: usize, b: usize) -> Seq<
    CircuitExpression,
> {
    interned(graph_with_negation(exprs, b), difference(exprs, a, b))
}

/// In a graph without repetition, the node that holds an expression is the
/// only one that does.
pub proof fn lemma_position(exprs: Seq<CircuitExpression>, n: int)
    requires
        all_distinct(exprs),
        0 <= n < exprs.len(),
    ensures
        exprs.index_of(exprs[n]) == n,
{
    let m = exprs.index_of(exprs[n]);
    assert(0 <= m < exprs.len() && exprs[m] == exprs[n]);
    if m < n {
        assert(exprs[m] != exprs[n]);
    }
    if n < m {
        assert(exprs[n] != exprs[m]);
    }
}

/// Builds circuits over one graph.
#[derive(Debug, PartialEq, Eq)]
pub struct CircuitBuilder {
    pub expressions: Vec<CircuitExpression>,
    pub degrees: Vec<u64>,
    pub base_flags: Vec<bool>,
    pub dual_row: bool,
}

impl CircuitBuilder {
    /// The invariant of the type.
    pub open spec fn wf(&self) -> bool {
        &&& well_formed(self.expressions@)
        &&& caches_agree(self.expressions@, self.degrees@, self.base_flags@)
        &&& all_distinct(self.expressions@)
        &&& all_folded(self.expressions@)
        &&& !self.dual_row ==> single_row(self.expressions@)
    }

    /// The graph built so far.
    pub open spec fn graph(&self) -> Seq<CircuitExpression> {
        self.expressions@
    }

    /// Whether the builder hands out inputs of the given row.
    pub open spec fn admits(&self, indicator: InputIndicator) -> bool {
        self.dual_row || indicator.row == Row::Current
    }

    /// Decides whether the builder hands out inputs of the given row.
    pub fn check_admits(&self, indicator: InputIndicator) -> (r: bool)
        ensures
            r == self.admits(indicator),
    {
        self.dual_row || indicator.is_current_row()
    }

    /// A builder for constraints that see the current row only.
    pub fn single_row() -> (r: CircuitBuilder)
        ensures
            r.wf(),
            r.graph().len() == 0,
            !r.dual_row,
    {
        CircuitBuilder {
            expressions: Vec::new(),
            degrees: Vec::new(),
            base_flags: Vec::new(),
            dual_row: false,
        }
    }

    /// A builder for constraints that see the current and the next row.
    pub fn dual_row() -> (r: CircuitBuilder)
        ensures
            r.wf(),
            r.graph().len() == 0,
            r.dual_row,
    {
        CircuitBuilder {
            expressions: Vec::new(),
            degrees: Vec::new(),
            base_flags: Vec::new(),
            dual_row: true,
        }
    }

    /// Number of nodes in the graph.
    pub fn num_nodes(&self) -> (r: usize)
        ensures
            r == self.graph().len(),
    {
        self.expressions.len()
    }

    /// What node `n` computes.
    pub fn expression(&self, n: usize) -> (r: CircuitExpression)
        requires
            n < self.graph().len(),
        ensures
            r == self.graph()[n as int],
    {
        self.expressions[n]
    }

    /// The degree of node `n`.
    pub fn degree(&self, n: usize) -> (r: u64)
        requires
            self.wf(),
            n < self.graph().len(),
        ensures
            r == degree_of(self.graph(), n as int),
    {
        self.degrees[n]
    }

    /// Whether node `n` takes its value in the base field.
    pub fn evaluates_to_base_element(&self, n: usize) -> (r: bool)
        requires
            self.wf(),
            n < self.graph().len(),
        ensures
            r == base_valued(self.graph(), n as int),
    {
        self.base_flags[n]
    }

    /// The node that holds `e`, if there is one.
    fn find(&self, e: CircuitExpression) -> (r: Option<usize>)
        requires
            all_distinct(self.expressions@),
        ensures
            match r {
                Some(n) => n < self.graph().len() && self.graph()[n as int] == e,
                None => !self.graph().contains(e),
            },
    {
        let mut i: usize = 0;
        while i < self.expressions.len()
            invariant
                i <= self.expressions@.len(),
                forall|j: int| 0 <= j < i ==> self.expressions@[j] != e,
            decreases self.expressions@.len() - i,
        {
            if self.expressions[i] == e {
                return Some(i);
            }
            i = i + 1;
        }
        None
    }

    /// The node that holds `e`, made now if none held it before.
    fn intern(&mut self, e: CircuitExpression, degree: u64, base: bool) -> (r: usize)
        requires
            old(self).wf(),
            e.fits_at(old(self).graph().len() as int),
            is_folded(old(self).graph(), e),
            !old(self).dual_row ==> e.reads_current_row_only(),
            degree == degree_at_end(old(self).graph(), e),
            base == base_valued(old(self).graph().push(e), old(self).graph().len() as int),
        ensures
            final(self).wf(),
            final(self).dual_row == old(self).dual_row,
            final(self).graph() == interned(old(self).graph(), e),
            r < final(self).graph().len(),
            final(self).graph()[r as int] == e,
    {
        match self.find(e) {
            Some(n) => n,
            None => {
                let n = self.expressions.len();
                let ghost before = self.expressions@;
                self.expressions.push(e);
                self.degrees.push(degree);
                self.base_flags.push(base);
                proof {
                    let after = self.expressions@;
                    assert forall|i: int| 0 <= i < after.len() implies (#[trigger] after[i]).fits_at(
                        i,
                    ) by {
                        if i < before.len() {
                            assert(after[i] == before[i]);
                        }
                    }
                    assert forall|i: int| 0 <= i < after.len() implies #[trigger] self.degrees@[i]
                        == degree_of(after, i) by {
                        if i < before.len() {
                            lemma_attributes_of_prefix(before, after, i);
                        }
                    }
                    assert forall|i: int| 0 <= i < after.len() implies #[trigger] self.base_flags@[i]
                        == base_valued(after, i) by {
                        if i < before.len() {
                            lemma_attributes_of_prefix(before, after, i);
                        }
                    }
                    assert forall|i: int, j: int| 0 <= i < j < after.len() implies after[i]
                        != after[j] by {
                        if j == before.len() {
                            assert(before[i] == after[i]);
                            assert(before.contains(before[i]));
                        }
                    }
                    assert forall|i: int| 0 <= i < after.len() implies is_folded(
                        after,
                        #[trigger] after[i],
                    ) by {
                        if i < before.len() {
                            assert(after[i] == before[i]);
                            assert(before[i].fits_at(i));
                            assert(is_folded(before, before[i]));
                            match before[i] {
                                CircuitExpression::BinaryOperation(_, l, r) => {
                                    assert(after[l as int] == before[l as int]);
                                    assert(after[r as int] == before[r as int]);
                                },
                                _ => {},
                            }
                        } else {
                            match e {
                                CircuitExpression::BinaryOperation(_, l, r) => {
                                    assert(after[l as int] == before[l as int]);
                                    assert(after[r as int] == before[r as int]);
                                },
                                _ => {},
                            }
                        }
                    }
                    if !self.dual_row {
                        assert forall|i: int| 0 <= i < after.len() implies (
                        #[trigger] after[i]).reads_current_row_only() by {
                            if i < before.len() {
                                assert(after[i] == before[i]);
                            }
                        }
                    }
                }
                n
            },
        }
    }

    /// The node for the base field constant `v` modulo the field's order.
    pub fn b_constant(&mut self, v: u64) -> (r: usize)
        requires
            old(self).wf(),
        ensures
            final(self).wf(),
            final(self).dual_row == old(self).dual_row,
            final(self).graph() == interned(
                old(self).graph(),
                CircuitExpression::BConstant(reduce(v as int) as u64),
            ),
            r < final(self).graph().len(),
            final(self).graph()[r as int] == CircuitExpression::BConstant(reduce(v as int) as u64),
    {
        let c = bfe_canonical(v);
        self.intern(CircuitExpression::BConstant(c), 0, true)
    }

    /// The node for the extension field constant with the given coefficients,
    /// each taken modulo the base field's order.
    pub fn x_constant(&mut self, c0: u64, c1: u64, c2: u64) -> (r: usize)
        requires
            old(self).wf(),
        ensures
            final(self).wf(),
            final(self).dual_row == old(self).dual_row,
            final(self).graph() == interned(
                old(self).graph(),
                CircuitExpression::XConstant(
                    ExtensionElement {
                        c0: reduce(c0 as int) as u64,
                        c1: reduce(c1 as int) as u64,
                        c2: reduce(c2 as int) as u64,
                    },
                ),
            ),
            r < final(self).graph().len(),
            final(self).graph()[r as int] == CircuitExpression::XConstant(
                ExtensionElement {
                    c0: reduce(c0 as int) as u64,
                    c1: reduce(c1 as int) as u64,
                    c2: reduce(c2 as int) as u64,
                },
            ),
    {
        let x = ExtensionElement {
            c0: bfe_canonical(c0),
            c1: bfe_canonical(c1),
            c2: bfe_canonical(c2),
        };
        self.intern(CircuitExpression::XConstant(x), 0, false)
    }

    /// The node that reads the cell named by `indicator`. The column index is
    /// taken as it is given.
    pub fn input(&mut self, indicator: InputIndicator) -> (r: usize)
        requires
            old(self).wf(),
            old(self).admits(indicator),
        ensures
            final(self).wf(),
            final(self).dual_row == old(self).dual_row,
            final(self).graph() == interned(old(self).graph(), CircuitExpression::Input(indicator)),
            r < final(self).graph().len(),
            final(self).graph()[r as int] == CircuitExpression::Input(indicator),
    {
        let base = indicator.is_main_table_column();
        self.intern(CircuitExpression::Input(indicator), 1, base)
    }

    /// The node that reads the challenge with the given index. The index is
    /// taken as it is given.
    pub fn challenge(&mut self, index: usize) -> (r: usize)
        requires
            old(self).wf(),
        ensures
            final(self).wf(),
            final(self).dual_row == old(self).dual_row,
            final(self).graph() == interned(old(self).graph(), CircuitExpression::Challenge(index)),
            r < final(self).graph().len(),
            final(self).graph()[r as int] == CircuitExpression::Challenge(index),
    {
        self.intern(CircuitExpression::Challenge(index), 1, false)
    }

    /// Whether nodes `a` and `b` can be combined by `op`: both exist, and the
    /// degree of their product, if one is asked for, fits the machine word.
    pub open spec fn can_combine(&self, op: BinOp, a: usize, b: usize) -> bool {
        &&& a < self.graph().len()
        &&& b < self.graph().len()
        &&& op == BinOp::Mul ==> degree_of(self.graph(), a as int) + degree_of(
            self.graph(),
            b as int,
        ) <= u64::MAX
    }

    /// Decides `can_combine`.
    pub fn check_can_combine(&self, op: BinOp, a: usize, b: usize) -> (r: bool)
        requires
            self.wf(),
        ensures
            r == self.can_combine(op, a, b),
    {
        if a >= self.expressions.len() || b >= self.expressions.len() {
            return false;
        }
        match op {
            BinOp::Add => true,
            BinOp::Mul => self.degrees[a] <= u64::MAX - self.degrees[b],
        }
    }

    /// The node for `a op b`. Two constants are folded into one constant;
    /// anything else becomes a binary operation on the two nodes.
    pub fn binop(&mut self, op: BinOp, a: usize, b: usize) -> (r: usize)
        requires
            old(self).wf(),
            old(self).can_combine(op, a, b),
        ensures
            final(self).wf(),
            final(self).dual_row == old(self).dual_row,
            final(self).graph() == interned(
                old(self).graph(),
                combined(old(self).graph(), op, a, b),
            ),
            r < final(self).graph().len(),
            final(self).graph()[r as int] == combined(old(self).graph(), op, a, b),
    {
        let ea = self.expressions[a];
        let eb = self.expressions[b];
        proof {
            assert(ea.fits_at(a as int));
            assert(eb.fits_at(b as int));
        }
        match (ea, eb) {
            (CircuitExpression::BConstant(x), CircuitExpression::BConstant(y)) => {
                let v = match op {
                    BinOp::Add => bfe_add(x, y),
                    BinOp::Mul => bfe_mul(x, y),
                };
                self.intern(CircuitExpression::BConstant(v), 0, true)
            },
            (CircuitExpression::BConstant(x), CircuitExpression::XConstant(y)) => {
                let v = Self::fold_ext(op, lift(x), y);
                self.intern(CircuitExpression::XConstant(v), 0, false)
            },
            (CircuitExpression::XConstant(x), CircuitExpression::BConstant(y)) => {
                let v = Self::fold_ext(op, x, lift(y));
                self.intern(CircuitExpression::XConstant(v), 0, false)
            },
            (CircuitExpression::XConstant(x), CircuitExpression::XConstant(y)) => {
                let v = Self::fold_ext(op, x, y);
                self.intern(CircuitExpression::XConstant(v), 0, false)
            },
            _ => {
                let e = CircuitExpression::BinaryOperation(op, a, b);
                let da = self.degrees[a];
                let db = self.degrees[b];
                let degree = match op {
                    BinOp::Add => if da >= db {
                        da
                    } else {
                        db
                    },
                    BinOp::Mul => da + db,
                };
                let base = self.base_flags[a] && self.base_flags[b];
                proof {
                    let before = self.expressions@;
                    let after = before.push(e);
                    lemma_attributes_of_prefix(before, after, a as int);
                    lemma_attributes_of_prefix(before, after, b as int);
                }
                self.intern(e, degree, base)
            },
        }
    }

    /// The result of `op` on two extension field constants.
    fn fold_ext(op: BinOp, x: ExtensionElement, y: ExtensionElement) -> (r: ExtensionElement)
        ensures
            r == ext_result(op, x, y),
            r.is_canonical(),
    {
        match op {
            BinOp::Add => xfe_add(x, y),
            BinOp::Mul => xfe_mul(x, y),
        }
    }

    /// The node for `a + b`.
    pub fn add(&mut self, a: usize, b: usize) -> (r: usize)
        requires
            old(self).wf(),
            old(self).can_combine(BinOp::Add, a, b),
        ensures
            final(self).wf(),
            final(self).dual_row == old(self).dual_row,
            final(self).graph() == interned(
                old(self).graph(),
                combined(old(self).graph(), BinOp::Add, a, b),
            ),
            r < final(self).graph().len(),
            final(self).graph()[r as int] == combined(old(self).graph(), BinOp::Add, a, b),
    {
        self.binop(BinOp::Add, a, b)
    }

    /// The node for `a · b`.
    pub fn mul(&mut self, a: usize, b: usize) -> (r: usize)
        requires
            old(self).wf(),
            old(self).can_combine(BinOp::Mul, a, b),
        ensures
            final(self).wf(),
            final(self).dual_row == old(self).dual_row,
            final(self).graph() == interned(
                old(self).graph(),
                combined(old(self).graph(), BinOp::Mul, a, b),
            ),
            r < final(self).graph().len(),
            final(self).graph()[r as int] == combined(old(self).graph(), BinOp::Mul, a, b),
    {
        self.binop(BinOp::Mul, a, b)
    }

    /// The node for `-a`, that is for the product of the constant -1 and `a`.
    pub fn neg(&mut self, a: usize) -> (r: usize)
        requires
            old(self).wf(),
            a < old(self).graph().len(),
        ensures
            final(self).wf(),
            final(self).dual_row == old(self).dual_row,
            final(self).graph() == graph_with_negation(old(self).graph(), a),
            r < final(self).graph().len(),
            final(self).graph()[r as int] == negation(old(self).graph(), a),
    {
        let ghost g0 = self.expressions@;
        let m = self.b_constant(P - 1);
        proof {
            let g1 = self.expressions@;
            lemma_position(g1, m as int);
            assert(g1[a as int] == g0[a as int]);
            assert(self.degrees@[a as int] == degree_of(g1, a as int));
            assert(g1[m as int] == minus_one());
            assert(degree_of(g1, m as int) == 0);
        }
        self.binop(BinOp::Mul, m, a)
    }

    /// The node for `a - b`, that is for the sum of `a` and `-b`.
    pub fn sub(&mut self, a: usize, b: usize) -> (r: usize)
        requires
            old(self).wf(),
            a < old(self).graph().len(),
            b < old(self).graph().len(),
        ensures
            final(self).wf(),
            final(self).dual_row == old(self).dual_row,
            final(self).graph() == graph_with_difference(old(self).graph(), a, b),
            r < final(self).graph().len(),
            final(self).graph()[r as int] == difference(old(self).graph(), a, b),
    {
        let negated = self.neg(b);
        proof {
            lemma_position(self.expressions@, negated as int);
        }
        self.binop(BinOp::Add, a, negated)
    }

    /// Hands the graph over as a batch of constraints with the given roots.
    pub fn into_multicircuit(self, roots: Vec<usize>) -> (r: Multicircuit)
        requires
            self.wf(),
            roots_in_range(roots@, self.graph().len() as int),
        ensures
            r.wf(),
            r.expressions@ == self.graph(),
            r.roots@ == roots@,
            r.dual_row == self.dual_row,
    {
        Multicircuit {
            expressions: self.expressions,
            degrees: self.degrees,
            base_flags: self.base_flags,
            roots,
            dual_row: self.dual_row,
        }
    }
}

} // verus!
