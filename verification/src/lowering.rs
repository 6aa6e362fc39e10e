//! Degree lowering: rewriting a batch of constraints until none has a degree
//! above the target, by putting fresh columns in the place of subexpressions.
//!
//! One step finds the first constraint above the target, walks down from its
//! root to an operation that is above the target while neither operand is
//! (always a product), and replaces the operand of larger degree by a fresh
//! column, everywhere that operand is used. The step records the rule that
//! binds the column to the replaced expression: a new constraint
//! `column - expression`, and the expression as the column's fill rule.

use crate::circuit::base_valued;
use crate::circuit::caches_agree;
use crate::circuit::degree_of;
use crate::circuit::lemma_attributes_of_prefix;
use crate::circuit::lemma_max_root_degree;
use crate::circuit::max_root_degree;
use crate::circuit::roots_in_range;
use crate::circuit::well_formed;
use crate::circuit::BinOp;
use crate::circuit::CircuitExpression;
use crate::circuit::InputIndicator;
use crate::circuit::Multicircuit;
use crate::circuit::Row;
use crate::circuit::Table;
use crate::expression::evaluate_single_node;
use crate::expression::expression_of;
use crate::expression::Expr;
use crate::field::P;
use std::collections::HashSet;
use vstd::prelude::*;

verus! {

/// What degree lowering is given: the degree that no constraint may exceed,
/// and how many columns each table has already.
#[derive(Clone, Copy, Debug, PartialEq, Eq, Structural)]
pub struct DegreeLoweringInfo {
    pub target_degree: u64,
    pub num_main_cols: usize,
    pub num_aux_cols: usize,
}

/// One substitution rule: the fresh column, the root of the constraint
/// `column - expression`, and the expression by which the column is filled.
#[derive(Debug, PartialEq, Eq)]
pub struct Substitution {
    pub column: InputIndicator,
    pub constraint: usize,
    pub fill: Expr,
}

/// The row in which a fresh column is referred to: the current row where
/// constraints see one row, the next row where they see two.
pub open spec fn fresh_row(dual_row: bool) -> Row {
    if dual_row {
        Row::Next
    } else {
        Row::Current
    }
}

/// The indicator of the fresh column with the given index.
pub open spec fn fresh_column(dual_row: bool, base: bool, index: usize) -> InputIndicator {
    InputIndicator {
        row: fresh_row(dual_row),
        table: if base {
            Table::Main
        } else {
            Table::Aux
        },
        column: index,
    }
}

/// The graph after node `s` has been replaced by `column`: the column stands
/// where `s` stood, so every user of `s` now uses the column; the replaced
/// expression moves to the end, followed by the constant -1, the negated
/// expression, and the rule `column - expression`.
pub open spec fn substituted(exprs: Seq<CircuitExpression>, s: int, column: InputIndicator) -> Seq<
    CircuitExpression,
> {
    let len = exprs.len();
    exprs.update(s, CircuitExpression::Input(column)).push(exprs[s]).push(
        CircuitExpression::BConstant((P - 1) as u64),
    ).push(CircuitExpression::BinaryOperation(BinOp::Mul, (len + 1) as usize, len as usize)).push(
        CircuitExpression::BinaryOperation(BinOp::Add, s as usize, (len + 2) as usize),
    )
}

/// Node `rule` is a substitution rule for `column`: it is the sum of the
/// column and of -1 times some expression.
pub open spec fn is_substitution_rule(
    exprs: Seq<CircuitExpression>,
    rule: int,
    column: InputIndicator,
) -> bool {
    &&& 3 <= rule < exprs.len()
    &&& exprs[rule] is BinaryOperation
    &&& exprs[rule]->BinaryOperation_0 == BinOp::Add
    &&& exprs[rule].rhs() == rule - 1
    &&& exprs[rule].lhs() < rule - 3
    &&& exprs[exprs[rule].lhs() as int] == CircuitExpression::Input(column)
    &&& exprs[rule - 1] == CircuitExpression::BinaryOperation(
        BinOp::Mul,
        (rule - 2) as usize,
        (rule - 3) as usize,
    )
    &&& exprs[rule - 2] == CircuitExpression::BConstant((P - 1) as u64)
}

/// Position among `roots` of the first one whose degree is above `target`;
/// the number of roots if there is none.
pub open spec fn first_above(exprs: Seq<CircuitExpression>, roots: Seq<usize>, target: nat) -> int
    decreases roots.len(),
{
    if roots.len() == 0 {
        0
    } else if degree_of(exprs, roots[0] as int) > target {
        0
    } else {
        1 + first_above(exprs, roots.drop_first(), target)
    }
}

/// The node reached from `n` by stepping to an operand whose degree is above
/// `target` for as long as there is one, the left operand first.
pub open spec fn lowest_above(exprs: Seq<CircuitExpression>, n: int, target: nat) -> int
    decreases n,
{
    if 0 <= n < exprs.len() {
        match exprs[n] {
            CircuitExpression::BinaryOperation(_, l, r) => {
                if l < n && degree_of(exprs, l as int) > target {
                    lowest_above(exprs, l as int, target)
                } else if r < n && degree_of(exprs, r as int) > target {
                    lowest_above(exprs, r as int, target)
                } else {
                    n
                }
            },
            _ => n,
        }
    } else {
        n
    }
}

/// The operand of `h` that has the larger degree; the left one if the
/// degrees are equal.
pub open spec fn larger_operand(exprs: Seq<CircuitExpression>, h: int) -> int {
    let l = exprs[h].lhs() as int;
    let r = exprs[h].rhs() as int;
    if degree_of(exprs, l) >= degree_of(exprs, r) {
        l
    } else {
        r
    }
}

/// The node that one step of lowering replaces when it starts from `root`.
pub open spec fn node_to_replace(exprs: Seq<CircuitExpression>, root: int, target: nat) -> int {
    larger_operand(exprs, lowest_above(exprs, root, target))
}

/// Where lowering stands: the graph, and the rules made so far for the
/// columns of the main table and of the auxiliary table.
pub struct LoweringState {
    pub exprs: Seq<CircuitExpression>,
    pub main: Seq<Substitution>,
    pub aux: Seq<Substitution>,
}

/// Lowering can take a step: the graph is well-formed and small enough to
/// grow, the roots lie in its first `bound` nodes, and the nodes after
/// those are at or below the target.
pub open spec fn can_step(
    exprs: Seq<CircuitExpression>,
    roots: Seq<usize>,
    bound: int,
    target: u64,
) -> bool {
    &&& well_formed(exprs)
    &&& target >= 2
    &&& 0 <= bound <= exprs.len()
    &&& exprs.len() + 3 <= usize::MAX
    &&& roots_in_range(roots, bound)
    &&& forall|n: int| bound <= n < exprs.len() ==> degree_of(exprs, n) <= target
    &&& first_above(exprs, roots, target as nat) < roots.len()
}

/// The state after one step of lowering.
pub open spec fn step(
    st: LoweringState,
    roots: Seq<usize>,
    dual_row: bool,
    info: DegreeLoweringInfo,
) -> LoweringState {
    let target = info.target_degree as nat;
    let root = roots[first_above(st.exprs, roots, target)] as int;
    let s = node_to_replace(st.exprs, root, target);
    let base = base_valued(st.exprs, s);
    let index = if base {
        info.num_main_cols + st.main.len()
    } else {
        info.num_aux_cols + st.aux.len()
    };
    let column = fresh_column(dual_row, base, index as usize);
    let rule = Substitution {
        column,
        constraint: (st.exprs.len() + 3) as usize,
        fill: expression_of(st.exprs, Set::<usize>::empty(), s as usize),
    };
    LoweringState {
        exprs: substituted(st.exprs, s, column),
        main: if base {
            st.main.push(rule)
        } else {
            st.main
        },
        aux: if base {
            st.aux
        } else {
            st.aux.push(rule)
        },
    }
}

/// The state that lowering ends in: steps are taken for as long as some
/// constraint's degree is above the target. In each step the first such
/// constraint is taken, the walk from its root finds the node to replace,
/// and a fresh column, numbered on from the columns there are, takes the
/// node's place.
pub open spec fn lowered(
    st: LoweringState,
    roots: Seq<usize>,
    dual_row: bool,
    info: DegreeLoweringInfo,
    bound: int,
) -> LoweringState
    decreases excess(st.exprs, bound, info.target_degree as nat),
{
    if can_step(st.exprs, roots, bound, info.target_degree) {
        proof {
            lemma_step_of(st, roots, dual_row, info, bound);
        }
        lowered(step(st, roots, dual_row, info), roots, dual_row, info, bound)
    } else {
        st
    }
}

/// The state that lowering a batch ends in.
pub open spec fn lowered_batch(circuits: Multicircuit, info: DegreeLoweringInfo) -> LoweringState {
    lowered(
        LoweringState {
            exprs: circuits.expressions@,
            main: Seq::<Substitution>::empty(),
            aux: Seq::<Substitution>::empty(),
        },
        circuits.roots@,
        circuits.dual_row,
        info,
        circuits.expressions@.len() as int,
    )
}

/// What the next batch is lowered under: the same target, and the column
/// counts raised by the rules made for this one.
pub open spec fn advanced(info: DegreeLoweringInfo, st: LoweringState) -> DegreeLoweringInfo {
    DegreeLoweringInfo {
        target_degree: info.target_degree,
        num_main_cols: (info.num_main_cols + st.main.len()) as usize,
        num_aux_cols: (info.num_aux_cols + st.aux.len()) as usize,
    }
}

/// The first root above the target is above the target, and the roots
/// before it are not.
pub proof fn lemma_first_above(exprs: Seq<CircuitExpression>, roots: Seq<usize>, target: nat)
    ensures
        0 <= first_above(exprs, roots, target) <= roots.len(),
        first_above(exprs, roots, target) < roots.len() ==> degree_of(
            exprs,
            roots[first_above(exprs, roots, target)] as int,
        ) > target,
        forall|j: int|
            0 <= j < first_above(exprs, roots, target) ==> degree_of(exprs, #[trigger] roots[j] as int)
                <= target,
    decreases roots.len(),
{
    if roots.len() > 0 && !(degree_of(exprs, roots[0] as int) > target) {
        let rest = roots.drop_first();
        lemma_first_above(exprs, rest, target);
        assert forall|j: int| 0 <= j < first_above(exprs, roots, target) implies degree_of(
            exprs,
            #[trigger] roots[j] as int,
        ) <= target by {
            if j > 0 {
                assert(rest[j - 1] == roots[j]);
            }
        }
        if first_above(exprs, roots, target) < roots.len() {
            assert(rest[first_above(exprs, rest, target)] == roots[first_above(
                exprs,
                roots,
                target,
            )]);
        }
    }
}

/// A position that is above the target while none before it is, is the
/// first position above the target.
pub proof fn lemma_first_above_is(
    exprs: Seq<CircuitExpression>,
    roots: Seq<usize>,
    target: nat,
    i: int,
)
    requires
        0 <= i <= roots.len(),
        forall|j: int| 0 <= j < i ==> degree_of(exprs, #[trigger] roots[j] as int) <= target,
        i < roots.len() ==> degree_of(exprs, roots[i] as int) > target,
    ensures
        first_above(exprs, roots, target) == i,
{
    lemma_first_above(exprs, roots, target);
    let f = first_above(exprs, roots, target);
    if f < i {
        assert(degree_of(exprs, roots[f] as int) <= target);
    }
    if i < f {
        assert(degree_of(exprs, roots[i] as int) <= target);
    }
}

/// Where the walk from a node above the target ends: at a product that is
/// above the target while neither operand is.
pub proof fn lemma_lowest_above(exprs: Seq<CircuitExpression>, n: int, target: nat)
    requires
        well_formed(exprs),
        0 <= n < exprs.len(),
        degree_of(exprs, n) > target,
        target >= 1,
    ensures
        0 <= lowest_above(exprs, n, target) <= n,
        degree_of(exprs, lowest_above(exprs, n, target)) > target,
        exprs[lowest_above(exprs, n, target)] is BinaryOperation,
        exprs[lowest_above(exprs, n, target)]->BinaryOperation_0 == BinOp::Mul,
        degree_of(exprs, exprs[lowest_above(exprs, n, target)].lhs() as int) <= target,
        degree_of(exprs, exprs[lowest_above(exprs, n, target)].rhs() as int) <= target,
    decreases n,
{
    assert(exprs[n].fits_at(n));
    match exprs[n] {
        CircuitExpression::BinaryOperation(_, l, r) => {
            if degree_of(exprs, l as int) > target {
                lemma_lowest_above(exprs, l as int, target);
            } else if degree_of(exprs, r as int) > target {
                lemma_lowest_above(exprs, r as int, target);
            }
        },
        _ => {},
    }
}

/// A step of lowering makes progress and leaves a state from which the next
/// step can be taken if one is needed.
pub proof fn lemma_step_of(
    st: LoweringState,
    roots: Seq<usize>,
    dual_row: bool,
    info: DegreeLoweringInfo,
    bound: int,
)
    requires
        can_step(st.exprs, roots, bound, info.target_degree),
    ensures
        excess(step(st, roots, dual_row, info).exprs, bound, info.target_degree as nat) < excess(
            st.exprs,
            bound,
            info.target_degree as nat,
        ),
        well_formed(step(st, roots, dual_row, info).exprs),
        step(st, roots, dual_row, info).exprs.len() == st.exprs.len() + 4,
        forall|n: int|
            bound <= n < step(st, roots, dual_row, info).exprs.len() ==> degree_of(
                step(st, roots, dual_row, info).exprs,
                n,
            ) <= info.target_degree,
{
    let target = info.target_degree as nat;
    let a = st.exprs;
    lemma_first_above(a, roots, target);
    let root = roots[first_above(a, roots, target)] as int;
    assert(root < bound);
    lemma_lowest_above(a, root, target);
    let h = lowest_above(a, root, target);
    let s = node_to_replace(a, root, target);
    let base = base_valued(a, s);
    let index = if base {
        info.num_main_cols + st.main.len()
    } else {
        info.num_aux_cols + st.aux.len()
    };
    let column = fresh_column(dual_row, base, index as usize);
    lemma_step(a, h, s, column, info.target_degree, bound);
    lemma_substituted(a, s, column);
}

/// By how much the degree of node `n` exceeds the target.
pub open spec fn excess_at(exprs: Seq<CircuitExpression>, n: int, target: nat) -> nat {
    let d = degree_of(exprs, n);
    if d > target {
        (d - target) as nat
    } else {
        0
    }
}

/// The sum of the excess of the first `bound` nodes.
pub open spec fn excess(exprs: Seq<CircuitExpression>, bound: int, target: nat) -> nat
    decreases bound,
{
    if bound <= 0 {
        0
    } else {
        excess(exprs, bound - 1, target) + excess_at(exprs, bound - 1, target)
    }
}

/// Where no degree grows, the excess does not grow.
pub proof fn lemma_excess_monotone(
    a: Seq<CircuitExpression>,
    b: Seq<CircuitExpression>,
    bound: int,
    target: nat,
)
    requires
        forall|n: int| 0 <= n < bound ==> degree_of(b, n) <= degree_of(a, n),
    ensures
        excess(b, bound, target) <= excess(a, bound, target),
    decreases bound,
{
    if bound > 0 {
        lemma_excess_monotone(a, b, bound - 1, target);
    }
}

/// Where no degree grows and one that was above the target shrinks, the
/// excess shrinks.
pub proof fn lemma_excess_decreases(
    a: Seq<CircuitExpression>,
    b: Seq<CircuitExpression>,
    bound: int,
    target: nat,
    h: int,
)
    requires
        forall|n: int| 0 <= n < bound ==> degree_of(b, n) <= degree_of(a, n),
        0 <= h < bound,
        degree_of(a, h) > target,
        degree_of(b, h) < degree_of(a, h),
    ensures
        excess(b, bound, target) < excess(a, bound, target),
    decreases bound,
{
    if h == bound - 1 {
        lemma_excess_monotone(a, b, bound - 1, target);
    } else {
        lemma_excess_decreases(a, b, bound - 1, target, h);
    }
}

/// The excess of more nodes is no smaller.
pub proof fn lemma_excess_grows(a: Seq<CircuitExpression>, lo: int, hi: int, target: nat)
    requires
        lo <= hi,
    ensures
        excess(a, lo, target) <= excess(a, hi, target),
    decreases hi - lo,
{
    if lo < hi {
        lemma_excess_grows(a, lo, hi - 1, target);
    }
}

/// A node above the target makes the excess positive.
pub proof fn lemma_excess_positive(a: Seq<CircuitExpression>, bound: int, target: nat, h: int)
    requires
        0 <= h < bound,
        degree_of(a, h) > target,
    ensures
        excess(a, bound, target) > 0,
    decreases bound,
{
    if h < bound - 1 {
        lemma_excess_positive(a, bound - 1, target, h);
    }
}

/// Putting an input in the place of a node of positive degree raises no
/// degree, and leaves the degrees before that node as they were.
pub proof fn lemma_update_degree(
    a: Seq<CircuitExpression>,
    s: int,
    column: InputIndicator,
    n: int,
)
    requires
        well_formed(a),
        0 <= s < a.len(),
        degree_of(a, s) >= 1,
        0 <= n < a.len(),
    ensures
        degree_of(a.update(s, CircuitExpression::Input(column)), n) <= degree_of(a, n),
        n < s ==> degree_of(a.update(s, CircuitExpression::Input(column)), n) == degree_of(a, n),
        n == s ==> degree_of(a.update(s, CircuitExpression::Input(column)), n) == 1,
    decreases n,
{
    let b = a.update(s, CircuitExpression::Input(column));
    if n != s {
        assert(b[n] == a[n]);
        assert(a[n].fits_at(n));
        match a[n] {
            CircuitExpression::BinaryOperation(_, l, r) => {
                lemma_update_degree(a, s, column, l as int);
                lemma_update_degree(a, s, column, r as int);
            },
            _ => {},
        }
    }
}

/// Putting a column of the same field in the place of a node changes no
/// node's field.
pub proof fn lemma_update_base(a: Seq<CircuitExpression>, s: int, column: InputIndicator, n: int)
    requires
        well_formed(a),
        0 <= s < a.len(),
        (column.table == Table::Main) == base_valued(a, s),
        0 <= n < a.len(),
    ensures
        base_valued(a.update(s, CircuitExpression::Input(column)), n) == base_valued(a, n),
    decreases n,
{
    let b = a.update(s, CircuitExpression::Input(column));
    if n != s {
        assert(b[n] == a[n]);
        assert(a[n].fits_at(n));
        match a[n] {
            CircuitExpression::BinaryOperation(_, l, r) => {
                lemma_update_base(a, s, column, l as int);
                lemma_update_base(a, s, column, r as int);
            },
            _ => {},
        }
    }
}

/// What a substitution does to the degrees and fields of the graph.
pub proof fn lemma_substituted(a: Seq<CircuitExpression>, s: int, column: InputIndicator)
    requires
        well_formed(a),
        0 <= s < a.len(),
        a[s] is BinaryOperation,
        degree_of(a, s) >= 1,
        (column.table == Table::Main) == base_valued(a, s),
        a.len() + 3 <= usize::MAX,
    ensures
        well_formed(substituted(a, s, column)),
        substituted(a, s, column).len() == a.len() + 4,
        forall|n: int|
            0 <= n < a.len() ==> degree_of(substituted(a, s, column), n) <= degree_of(a, n),
        forall|n: int|
            0 <= n < a.len() ==> degree_of(substituted(a, s, column), n) == degree_of(
                a.update(s, CircuitExpression::Input(column)),
                n,
            ),
        forall|n: int|
            0 <= n < a.len() ==> base_valued(substituted(a, s, column), n) == base_valued(a, n),
        degree_of(substituted(a, s, column), s) == 1,
        degree_of(substituted(a, s, column), a.len() as int) == degree_of(a, s),
        degree_of(substituted(a, s, column), a.len() as int + 1) == 0,
        degree_of(substituted(a, s, column), a.len() as int + 2) == degree_of(a, s),
        degree_of(substituted(a, s, column), a.len() as int + 3) == degree_of(a, s),
        base_valued(substituted(a, s, column), a.len() as int) == base_valued(a, s),
        base_valued(substituted(a, s, column), a.len() as int + 1),
        base_valued(substituted(a, s, column), a.len() as int + 2) == base_valued(a, s),
        base_valued(substituted(a, s, column), a.len() as int + 3) == base_valued(a, s),
        is_substitution_rule(substituted(a, s, column), a.len() as int + 3, column),
        a[s].reads_current_row_only(),
{
    let len = a.len() as int;
    let u = a.update(s, CircuitExpression::Input(column));
    let b = substituted(a, s, column);
    assert(a[s].fits_at(s));
    assert forall|n: int| 0 <= n < b.len() implies (#[trigger] b[n]).fits_at(n) by {
        if n < len && n != s {
            assert(b[n] == a[n]);
            assert(a[n].fits_at(n));
        }
    }
    assert forall|n: int| 0 <= n < len implies degree_of(b, n) == degree_of(u, n) && degree_of(
        b,
        n,
    ) <= degree_of(a, n) && base_valued(b, n) == base_valued(a, n) by {
        lemma_attributes_of_prefix(u, b, n);
        lemma_update_degree(a, s, column, n);
        lemma_update_base(a, s, column, n);
    }
    lemma_update_degree(a, s, column, s);
    // the copy of the replaced expression
    let l = a[s].lhs() as int;
    let r = a[s].rhs() as int;
    lemma_update_degree(a, s, column, l);
    lemma_update_degree(a, s, column, r);
    lemma_update_base(a, s, column, l);
    lemma_update_base(a, s, column, r);
    lemma_attributes_of_prefix(u, b, l);
    lemma_attributes_of_prefix(u, b, r);
    assert(degree_of(b, l) == degree_of(a, l));
    assert(degree_of(b, r) == degree_of(a, r));
    assert(b[len] == a[s]);
    assert(degree_of(b, len) == degree_of(a, s));
    assert(base_valued(b, len) == base_valued(a, s));
    assert(b[len + 1] == CircuitExpression::BConstant((P - 1) as u64));
    assert(degree_of(b, len + 1) == 0);
    assert(base_valued(b, len + 1));
    assert(b[len + 2] == CircuitExpression::BinaryOperation(
        BinOp::Mul,
        (len + 1) as usize,
        len as usize,
    ));
    assert(degree_of(b, len + 2) == degree_of(b, len + 1) + degree_of(b, len));
    assert(base_valued(b, len + 2) == (base_valued(b, len + 1) && base_valued(b, len)));
    assert(b[len + 3] == CircuitExpression::BinaryOperation(
        BinOp::Add,
        s as usize,
        (len + 2) as usize,
    ));
    assert(b[s] == CircuitExpression::Input(column));
    assert(degree_of(b, s) == 1);
    assert(degree_of(b, len + 3) == degree_of(a, s));
    assert(base_valued(b, s) == base_valued(a, s));
    assert(base_valued(b, len + 3) == (base_valued(b, s) && base_valued(b, len + 2)));
}

impl Multicircuit {
    /// The sum, over all nodes, of the amount by which the node's degree
    /// exceeds `target`. Lowering makes at most this many substitutions.
    pub open spec fn spec_excess(&self, target: u64) -> nat {
        excess(self.expressions@, self.expressions@.len() as int, target as nat)
    }

    /// Computes the excess over `target`, unless it is too large for the
    /// machine word.
    pub fn excess_degree(&self, target: u64) -> (r: Option<usize>)
        requires
            self.wf(),
        ensures
            match r {
                Some(e) => e == self.spec_excess(target),
                None => self.spec_excess(target) > usize::MAX,
            },
    {
        let mut total: usize = 0;
        let mut n: usize = 0;
        while n < self.degrees.len()
            invariant
                self.wf(),
                n <= self.expressions@.len(),
                total == excess(self.expressions@, n as int, target as nat),
            decreases self.expressions@.len() - n,
        {
            let d = self.degrees[n];
            if d > target {
                let over = d - target;
                if over > usize::MAX as u64 || over as usize > usize::MAX - total {
                    proof {
                        lemma_excess_grows(
                            self.expressions@,
                            n + 1,
                            self.expressions@.len() as int,
                            target as nat,
                        );
                    }
                    return None;
                }
                total = total + over as usize;
            }
            n = n + 1;
        }
        Some(total)
    }

    /// Position among the constraints of the first one whose degree is above
    /// `target`, if there is one.
    pub fn first_constraint_above(&self, target: u64) -> (r: Option<usize>)
        requires
            self.wf(),
        ensures
            match r {
                Some(i) => {
                    &&& i < self.roots@.len()
                    &&& degree_of(self.expressions@, self.roots@[i as int] as int) > target
                    &&& forall|j: int|
                        0 <= j < i ==> degree_of(self.expressions@, #[trigger] self.roots@[j] as int)
                            <= target
                },
                None => forall|j: int|
                    0 <= j < self.roots@.len() ==> degree_of(
                        self.expressions@,
                        #[trigger] self.roots@[j] as int,
                    ) <= target,
            },
            first_above(self.expressions@, self.roots@, target as nat) == match r {
                Some(i) => i as int,
                None => self.roots@.len() as int,
            },
    {
        let mut i: usize = 0;
        while i < self.roots.len()
            invariant
                self.wf(),
                i <= self.roots@.len(),
                forall|j: int|
                    0 <= j < i ==> degree_of(self.expressions@, #[trigger] self.roots@[j] as int)
                        <= target,
            decreases self.roots@.len() - i,
        {
            if self.degrees[self.roots[i]] > target {
                proof {
                    lemma_first_above_is(self.expressions@, self.roots@, target as nat, i as int);
                }
                return Some(i);
            }
            i = i + 1;
        }
        proof {
            lemma_first_above_is(self.expressions@, self.roots@, target as nat, i as int);
        }
        None
    }

    /// Walks down from `start` to an operation whose degree is above
    /// `target` while neither operand's is, trying the left operand first.
    pub fn lowest_node_above(&self, start: usize, target: u64) -> (h: usize)
        requires
            self.wf(),
            start < self.expressions@.len(),
            degree_of(self.expressions@, start as int) > target,
            target >= 1,
        ensures
            h == lowest_above(self.expressions@, start as int, target as nat),
            h <= start,
            degree_of(self.expressions@, h as int) > target,
            self.expressions@[h as int] is BinaryOperation,
            self.expressions@[h as int]->BinaryOperation_0 == BinOp::Mul,
            degree_of(self.expressions@, self.expressions@[h as int].lhs() as int) <= target,
            degree_of(self.expressions@, self.expressions@[h as int].rhs() as int) <= target,
    {
        let mut h = start;
        loop
            invariant
                self.wf(),
                h <= start,
                start < self.expressions@.len(),
                degree_of(self.expressions@, h as int) > target,
                target >= 1,
                lowest_above(self.expressions@, h as int, target as nat) == lowest_above(
                    self.expressions@,
                    start as int,
                    target as nat,
                ),
            ensures
                h == lowest_above(self.expressions@, start as int, target as nat),
                h <= start,
                degree_of(self.expressions@, h as int) > target,
                self.expressions@[h as int] is BinaryOperation,
                self.expressions@[h as int]->BinaryOperation_0 == BinOp::Mul,
                degree_of(self.expressions@, self.expressions@[h as int].lhs() as int) <= target,
                degree_of(self.expressions@, self.expressions@[h as int].rhs() as int) <= target,
            decreases h,
        {
            assert(self.expressions@[h as int].fits_at(h as int));
            match self.expressions[h] {
                CircuitExpression::BinaryOperation(_, l, r) => {
                    if self.degrees[l] > target {
                        h = l;
                    } else if self.degrees[r] > target {
                        h = r;
                    } else {
                        break ;
                    }
                },
                _ => {
                    break ;
                },
            }
        }
        h
    }

    /// Replaces node `s` by the fresh column with the given index and records
    /// the rule that binds the two.
    fn substitute(&mut self, s: usize, index: usize) -> (r: Substitution)
        requires
            old(self).wf(),
            s < old(self).expressions@.len(),
            degree_of(old(self).expressions@, s as int) >= 2,
        ensures
            final(self).wf(),
            final(self).dual_row == old(self).dual_row,
            final(self).roots@ == old(self).roots@,
            r.column == fresh_column(
                old(self).dual_row,
                base_valued(old(self).expressions@, s as int),
                index,
            ),
            final(self).expressions@ == substituted(old(self).expressions@, s as int, r.column),
            r.constraint == old(self).expressions@.len() + 3,
            r.fill == expression_of(old(self).expressions@, Set::<usize>::empty(), s),
    {
        let ghost a = self.expressions@;
        let len = self.expressions.len();
        let replaced = self.expressions[s];
        let degree = self.degrees[s];
        let base = self.base_flags[s];
        let column = InputIndicator {
            row: if self.dual_row {
                Row::Next
            } else {
                Row::Current
            },
            table: if base {
                Table::Main
            } else {
                Table::Aux
            },
            column: index,
        };
        let fill = evaluate_single_node(self, &HashSet::new(), s);
        let ghost b = substituted(a, s as int, column);
        self.expressions.set(s, CircuitExpression::Input(column));
        self.degrees.set(s, 1);
        let ghost u = self.expressions@;
        assert(u == a.update(s as int, CircuitExpression::Input(column)));
        proof {
            assert forall|k: int| 0 <= k < s + 1 implies #[trigger] self.degrees@[k] == degree_of(
                u,
                k,
            ) by {
                lemma_update_degree(a, s as int, column, k);
                assert(old(self).degrees@[k] == degree_of(a, k));
            }
        }
        // the degrees above the replaced node
        let mut n: usize = s + 1;
        while n < len
            invariant
                s < n <= len,
                len == a.len(),
                u == a.update(s as int, CircuitExpression::Input(column)),
                self.expressions@ == u,
                self.degrees@.len() == len,
                self.base_flags@ == old(self).base_flags@,
                self.roots@ == old(self).roots@,
                self.dual_row == old(self).dual_row,
                well_formed(a),
                caches_agree(a, old(self).degrees@, old(self).base_flags@),
                degree_of(a, s as int) >= 1,
                forall|k: int| 0 <= k < n ==> #[trigger] self.degrees@[k] == degree_of(u, k),
                forall|k: int| n <= k < len ==> #[trigger] self.degrees@[k] == degree_of(a, k),
            decreases len - n,
        {
            proof {
                assert(u[n as int] == a[n as int]);
                assert(a[n as int].fits_at(n as int));
                lemma_update_degree(a, s as int, column, n as int);
            }
            match self.expressions[n] {
                CircuitExpression::BinaryOperation(op, l, r) => {
                    let dl = self.degrees[l];
                    let dr = self.degrees[r];
                    proof {
                        lemma_update_degree(a, s as int, column, l as int);
                        lemma_update_degree(a, s as int, column, r as int);
                        assert(old(self).degrees@[n as int] == degree_of(a, n as int));
                    }
                    let d = match op {
                        BinOp::Add => if dl >= dr {
                            dl
                        } else {
                            dr
                        },
                        BinOp::Mul => dl + dr,
                    };
                    self.degrees.set(n, d);
                },
                _ => {},
            }
            n = n + 1;
        }
        self.expressions.push(replaced);
        self.degrees.push(degree);
        self.base_flags.push(base);
        self.expressions.push(CircuitExpression::BConstant(P - 1));
        self.degrees.push(0);
        self.base_flags.push(true);
        let minus_one = self.expressions.len() - 1;
        self.expressions.push(CircuitExpression::BinaryOperation(BinOp::Mul, minus_one, len));
        self.degrees.push(degree);
        self.base_flags.push(base);
        let negated = self.expressions.len() - 1;
        self.expressions.push(CircuitExpression::BinaryOperation(BinOp::Add, s, negated));
        self.degrees.push(degree);
        self.base_flags.push(base);
        let constraint = self.expressions.len() - 1;
        proof {
            lemma_substituted(a, s as int, column);
            assert(self.expressions@ =~= b);
            assert forall|k: int| 0 <= k < b.len() implies #[trigger] self.degrees@[k]
                == degree_of(b, k) by {
                if k < len {
                    assert(self.degrees@[k] == degree_of(u, k));
                }
            }
            assert forall|k: int| 0 <= k < b.len() implies #[trigger] self.base_flags@[k]
                == base_valued(b, k) by {
                if k < len {
                    assert(self.base_flags@[k] == old(self).base_flags@[k]);
                }
            }
            assert forall|i: int| 0 <= i < self.roots@.len() implies #[trigger] self.roots@[i]
                < b.len() by {
                assert(old(self).roots@[i] < a.len());
            }
            if !self.dual_row {
                assert forall|k: int| 0 <= k < b.len() implies (
                #[trigger] b[k]).reads_current_row_only() by {
                    if k < len && k != s {
                        assert(b[k] == a[k]);
                        assert(a[k].reads_current_row_only());
                    }
                }
            }
        }
        Substitution { column, constraint, fill }
    }

    /// One step of lowering below a root that is above the target: finds the
    /// node to replace and replaces it by a fresh column, which takes the
    /// first index if the node is of the base field and the second if not.
    /// Returns the rule and the node that was replaced.
    fn substitute_below(
        &mut self,
        root: usize,
        target: u64,
        main_index: usize,
        aux_index: usize,
        Ghost(floor): Ghost<int>,
    ) -> (r: (Substitution, usize))
        requires
            old(self).wf(),
            root < floor <= old(self).expressions@.len(),
            target >= 2,
            degree_of(old(self).expressions@, root as int) > target,
            forall|n: int|
                floor <= n < old(self).expressions@.len() ==> degree_of(old(self).expressions@, n)
                    <= target,
        ensures
            final(self).wf(),
            final(self).dual_row == old(self).dual_row,
            final(self).roots@ == old(self).roots@,
            r.1 == node_to_replace(old(self).expressions@, root as int, target as nat),
            r.0.fill == expression_of(old(self).expressions@, Set::<usize>::empty(), r.1),
            r.1 < floor,
            old(self).expressions@[r.1 as int] is BinaryOperation,
            degree_of(old(self).expressions@, r.1 as int) >= 1,
            (r.0.column.table == Table::Main) == base_valued(old(self).expressions@, r.1 as int),
            r.0.column == fresh_column(
                old(self).dual_row,
                r.0.column.table == Table::Main,
                if r.0.column.table == Table::Main {
                    main_index
                } else {
                    aux_index
                },
            ),
            final(self).expressions@ == substituted(old(self).expressions@, r.1 as int, r.0.column),
            final(self).expressions@.len() == old(self).expressions@.len() + 4,
            r.0.constraint == old(self).expressions@.len() + 3,
            is_substitution_rule(final(self).expressions@, r.0.constraint as int, r.0.column),
            final(self).expressions@[r.0.constraint as int].lhs() < floor,
            degree_of(final(self).expressions@, r.0.constraint as int) <= target,
            excess(final(self).expressions@, floor, target as nat) < excess(
                old(self).expressions@,
                floor,
                target as nat,
            ),
            forall|n: int|
                floor <= n < final(self).expressions@.len() ==> degree_of(
                    final(self).expressions@,
                    n,
                ) <= target,
    {
        let ghost a = self.expressions@;
        let h = self.lowest_node_above(root, target);
        assert(self.expressions@[h as int].fits_at(h as int));
        let s = match self.expressions[h] {
            CircuitExpression::BinaryOperation(_, l, r) => {
                if self.degrees[l] >= self.degrees[r] {
                    l
                } else {
                    r
                }
            },
            _ => h,
        };
        let base = self.base_flags[s];
        let index = if base {
            main_index
        } else {
            aux_index
        };
        proof {
            assert(a[s as int].fits_at(s as int));
        }
        let substitution = self.substitute(s, index);
        proof {
            lemma_step(a, h as int, s as int, substitution.column, target, floor);
            lemma_substituted(a, s as int, substitution.column);
        }
        (substitution, s)
    }

    /// Lowers the degree of every constraint to at most `info.target_degree`.
    ///
    /// Returns the substitution rules in the order in which they were made,
    /// those for main table columns and those for auxiliary table columns.
    /// The roots of the constraints stay where they are; the constraints of
    /// the rules are not among them yet.
    pub fn lower_to_degree(&mut self, info: DegreeLoweringInfo) -> (r: (
        Vec<Substitution>,
        Vec<Substitution>,
    ))
        requires
            old(self).wf(),
            info.target_degree > 1,
            info.num_main_cols + old(self).spec_excess(info.target_degree) <= usize::MAX,
            info.num_aux_cols + old(self).spec_excess(info.target_degree) <= usize::MAX,
        ensures
            final(self).wf(),
            final(self).dual_row == old(self).dual_row,
            final(self).roots@ == old(self).roots@,
            final(self).spec_degree() <= info.target_degree,
            r.0@.len() + r.1@.len() <= old(self).spec_excess(info.target_degree),
            final(self).expressions@.len() == old(self).expressions@.len() + 4 * (r.0@.len()
                + r.1@.len()),
            rules_hold(
                final(self).expressions@,
                r.0@,
                old(self).dual_row,
                true,
                info.num_main_cols,
                info.target_degree,
            ),
            rules_above(final(self).expressions@, r.0@, old(self).expressions@.len() as int),
            rules_hold(
                final(self).expressions@,
                r.1@,
                old(self).dual_row,
                false,
                info.num_aux_cols,
                info.target_degree,
            ),
            rules_above(final(self).expressions@, r.1@, old(self).expressions@.len() as int),
            old(self).spec_degree() <= info.target_degree ==> {
                &&& final(self).expressions@ == old(self).expressions@
                &&& r.0@.len() == 0
                &&& r.1@.len() == 0
            },
            old(self).spec_degree() > info.target_degree ==> r.0@.len() + r.1@.len() > 0,
            (LoweringState { exprs: final(self).expressions@, main: r.0@, aux: r.1@ })
                == lowered_batch(*old(self), info),
    {
        let target = info.target_degree;
        let ghost len_0 = self.expressions@.len();
        let ghost initial = self.expressions@;
        let mut main: Vec<Substitution> = Vec::new();
        let mut aux: Vec<Substitution> = Vec::new();
        proof {
            lemma_max_root_degree(self.expressions@, self.roots@);
            lemma_no_rules(self.expressions@, self.dual_row, true, info.num_main_cols, target, len_0 as int);
            lemma_no_rules(self.expressions@, self.dual_row, false, info.num_aux_cols, target, len_0 as int);
        }
        loop
            invariant
                self.wf(),
                self.dual_row == old(self).dual_row,
                self.roots@ == old(self).roots@,
                target == info.target_degree,
                target > 1,
                info.num_main_cols + excess(initial, len_0 as int, target as nat) <= usize::MAX,
                info.num_aux_cols + excess(initial, len_0 as int, target as nat) <= usize::MAX,
                main@.len() + aux@.len() + excess(self.expressions@, len_0 as int, target as nat)
                    <= excess(initial, len_0 as int, target as nat),
                len_0 == old(self).expressions@.len(),
                initial == old(self).expressions@,
                roots_in_range(self.roots@, len_0 as int),
                self.expressions@.len() == len_0 + 4 * (main@.len() + aux@.len()),
                forall|n: int|
                    len_0 <= n < self.expressions@.len() ==> degree_of(self.expressions@, n)
                        <= target,
                rules_hold(
                    self.expressions@,
                    main@,
                    self.dual_row,
                    true,
                    info.num_main_cols,
                    target,
                ),
                rules_above(self.expressions@, main@, len_0 as int),
                rules_hold(
                    self.expressions@,
                    aux@,
                    self.dual_row,
                    false,
                    info.num_aux_cols,
                    target,
                ),
                rules_above(self.expressions@, aux@, len_0 as int),
                main@.len() + aux@.len() == 0 ==> self.expressions@ == initial,
                main@.len() + aux@.len() > 0 ==> max_root_degree(initial, self.roots@) > target,
                lowered(
                    LoweringState { exprs: self.expressions@, main: main@, aux: aux@ },
                    self.roots@,
                    self.dual_row,
                    info,
                    len_0 as int,
                ) == lowered(
                    LoweringState {
                        exprs: initial,
                        main: Seq::<Substitution>::empty(),
                        aux: Seq::<Substitution>::empty(),
                    },
                    self.roots@,
                    self.dual_row,
                    info,
                    len_0 as int,
                ),
            ensures
                forall|j: int|
                    0 <= j < self.roots@.len() ==> degree_of(
                        self.expressions@,
                        #[trigger] self.roots@[j] as int,
                    ) <= target,
                max_root_degree(initial, self.roots@) <= target ==> main@.len() + aux@.len() == 0,
                !can_step(self.expressions@, self.roots@, len_0 as int, target),
            decreases excess(self.expressions@, len_0 as int, target as nat),
        {
            let ghost a = self.expressions@;
            let found = self.first_constraint_above(target);
            if found.is_none() {
                proof {
                    lemma_max_root_degree(a, self.roots@);
                    lemma_max_root_degree(initial, self.roots@);
                }
                break ;
            }
            let i = found.unwrap();
            proof {
                lemma_max_root_degree(initial, self.roots@);
                if main@.len() + aux@.len() == 0 {
                    assert(degree_of(initial, self.roots@[i as int] as int) > target);
                }
            }
            let root = self.roots[i];
            proof {
                lemma_excess_positive(a, len_0 as int, target as nat, root as int);
            }
            let (substitution, s) = self.substitute_below(
                root,
                target,
                info.num_main_cols + main.len(),
                info.num_aux_cols + aux.len(),
                Ghost(len_0 as int),
            );
            let base = substitution.column.is_main_table_column();
            proof {
                let column = substitution.column;
                let before = LoweringState { exprs: a, main: main@, aux: aux@ };
                assert(can_step(a, self.roots@, len_0 as int, target));
                assert(self.expressions@ == step(before, self.roots@, self.dual_row, info).exprs);
                assert(substitution == if base {
                    step(before, self.roots@, self.dual_row, info).main.last()
                } else {
                    step(before, self.roots@, self.dual_row, info).aux.last()
                });
                lemma_rules_survive(
                    a,
                    main@,
                    s as int,
                    column,
                    self.dual_row,
                    true,
                    info.num_main_cols,
                    target,
                    len_0 as int,
                );
                lemma_rules_survive(
                    a,
                    aux@,
                    s as int,
                    column,
                    self.dual_row,
                    false,
                    info.num_aux_cols,
                    target,
                    len_0 as int,
                );
            }
            let ghost main_before = main@;
            let ghost aux_before = aux@;
            if base {
                main.push(substitution);
                proof {
                    assert(main@.drop_last() =~= main_before);
                    lemma_rules_extend(
                        self.expressions@,
                        main@,
                        self.dual_row,
                        true,
                        info.num_main_cols,
                        target,
                        len_0 as int,
                    );
                }
            } else {
                aux.push(substitution);
                proof {
                    assert(aux@.drop_last() =~= aux_before);
                    lemma_rules_extend(
                        self.expressions@,
                        aux@,
                        self.dual_row,
                        false,
                        info.num_aux_cols,
                        target,
                        len_0 as int,
                    );
                }
            }
        }
        proof {
            lemma_max_root_degree(self.expressions@, self.roots@);
            lemma_max_root_degree(initial, self.roots@);
            if self.roots@.len() > 0 {
                let i = choose|i: int|
                    0 <= i < self.roots@.len() && degree_of(
                        self.expressions@,
                        #[trigger] self.roots@[i] as int,
                    ) == max_root_degree(self.expressions@, self.roots@);
                assert(degree_of(self.expressions@, self.roots@[i] as int) <= target);
            }
        }
        (main, aux)
    }
}

/// One step of lowering makes progress and leaves every node outside the
/// initial graph at or below the target.
pub proof fn lemma_step(
    a: Seq<CircuitExpression>,
    h: int,
    s: int,
    column: InputIndicator,
    target: u64,
    floor: int,
)
    requires
        well_formed(a),
        0 <= h < floor <= a.len(),
        a.len() + 3 <= usize::MAX,
        target >= 2,
        a[h] is BinaryOperation,
        a[h]->BinaryOperation_0 == BinOp::Mul,
        degree_of(a, h) > target,
        degree_of(a, a[h].lhs() as int) <= target,
        degree_of(a, a[h].rhs() as int) <= target,
        s == if degree_of(a, a[h].lhs() as int) >= degree_of(a, a[h].rhs() as int) {
            a[h].lhs()
        } else {
            a[h].rhs()
        },
        (column.table == Table::Main) == base_valued(a, s),
        forall|n: int| floor <= n < a.len() ==> degree_of(a, n) <= target,
    ensures
        0 <= s < h,
        a[s] is BinaryOperation,
        2 <= degree_of(a, s) <= target,
        excess(substituted(a, s, column), floor, target as nat) < excess(a, floor, target as nat),
        forall|n: int|
            floor <= n < substituted(a, s, column).len() ==> degree_of(
                substituted(a, s, column),
                n,
            ) <= target,
        substituted(a, s, column)[a.len() as int + 3].lhs() == s,
{
    let b = substituted(a, s, column);
    let l = a[h].lhs() as int;
    let r = a[h].rhs() as int;
    assert(a[h].fits_at(h));
    assert(degree_of(a, h) == degree_of(a, l) + degree_of(a, r));
    assert(a[s].fits_at(s));
    assert(a[s] is BinaryOperation);
    lemma_substituted(a, s, column);
    assert(b[h] == a[h]);
    assert(degree_of(b, h) == degree_of(b, l) + degree_of(b, r));
    assert(degree_of(b, l) <= degree_of(a, l));
    assert(degree_of(b, r) <= degree_of(a, r));
    assert(degree_of(b, s) == 1);
    lemma_excess_decreases(a, b, floor, target as nat, h);
    assert forall|n: int| floor <= n < b.len() implies degree_of(b, n) <= target by {
        if n < a.len() {
            assert(degree_of(b, n) <= degree_of(a, n));
        }
    }
}

/// One above the target takes one rule. Let the only constraint be a
/// product of two factors that are both within the target, and let its
/// degree be the target plus one. Then lowering makes exactly one rule: it
/// puts a fresh column in the place of the factor of larger degree, which
/// brings the constraint within the target, and the constraint that the
/// rule adds has the degree of that factor.
pub proof fn lemma_one_above_takes_one_rule(circuits: Multicircuit, info: DegreeLoweringInfo)
    requires
        circuits.wf(),
        circuits.expressions@.len() + 3 <= usize::MAX,
        info.target_degree >= 2,
        circuits.roots@.len() == 1,
        degree_of(circuits.expressions@, circuits.roots@[0] as int) == info.target_degree + 1,
        lowest_above(
            circuits.expressions@,
            circuits.roots@[0] as int,
            info.target_degree as nat,
        ) == circuits.roots@[0],
    ensures
        lowered_batch(circuits, info).main.len() + lowered_batch(circuits, info).aux.len() == 1,
        lowered_batch(circuits, info).exprs.len() == circuits.expressions@.len() + 4,
        degree_of(lowered_batch(circuits, info).exprs, circuits.roots@[0] as int)
            <= info.target_degree,
        degree_of(
            lowered_batch(circuits, info).exprs,
            circuits.expressions@.len() as int + 3,
        ) == degree_of(
            circuits.expressions@,
            larger_operand(circuits.expressions@, circuits.roots@[0] as int),
        ),
{
    let a = circuits.expressions@;
    let roots = circuits.roots@;
    let target = info.target_degree as nat;
    let bound = a.len() as int;
    let root = roots[0] as int;
    let st = LoweringState {
        exprs: a,
        main: Seq::<Substitution>::empty(),
        aux: Seq::<Substitution>::empty(),
    };
    assert(first_above(a, roots, target) == 0);
    assert(can_step(a, roots, bound, info.target_degree));
    let next = step(st, roots, circuits.dual_row, info);
    assert(lowered_batch(circuits, info) == lowered(next, roots, circuits.dual_row, info, bound));
    // what the step does
    lemma_lowest_above(a, root, target);
    let s = larger_operand(a, root);
    let base = base_valued(a, s);
    let index = if base {
        info.num_main_cols + st.main.len()
    } else {
        info.num_aux_cols + st.aux.len()
    };
    let column = fresh_column(circuits.dual_row, base, index as usize);
    let b = substituted(a, s, column);
    assert(next.exprs == b);
    lemma_step(a, root, s, column, info.target_degree, bound);
    lemma_substituted(a, s, column);
    assert(a[root].fits_at(root));
    let l = a[root].lhs() as int;
    let r = a[root].rhs() as int;
    assert(b[root] == a[root]);
    assert(degree_of(a, root) == degree_of(a, l) + degree_of(a, r));
    assert(degree_of(b, root) == degree_of(b, l) + degree_of(b, r));
    assert(degree_of(b, l) <= degree_of(a, l));
    assert(degree_of(b, r) <= degree_of(a, r));
    assert(degree_of(b, root) <= target);
    // no further step is taken
    assert(roots.drop_first().len() == 0);
    assert(first_above(b, roots, target) == 1 + first_above(b, roots.drop_first(), target));
    assert(!can_step(b, roots, bound, info.target_degree));
    assert(lowered(next, roots, circuits.dual_row, info, bound) == next);
}

/// What holds of the rules for the columns of one table: the columns are
/// numbered consecutively from `first_index` on, and each rule's constraint
/// has the shape `column - expression` and a degree of at most `target`.
#[verifier::opaque]
pub open spec fn rules_hold(
    exprs: Seq<CircuitExpression>,
    rules: Seq<Substitution>,
    dual_row: bool,
    base: bool,
    first_index: usize,
    target: u64,
) -> bool {
    forall|i: int|
        0 <= i < rules.len() ==> {
            &&& (#[trigger] rules[i]).column == fresh_column(
                dual_row,
                base,
                (first_index + i) as usize,
            )
            &&& is_substitution_rule(exprs, rules[i].constraint as int, rules[i].column)
            &&& degree_of(exprs, rules[i].constraint as int) <= target
        }
}

/// Each rule's column stands at a node below `floor`, the rest of the rule
/// above it.
#[verifier::opaque]
pub open spec fn rules_above(exprs: Seq<CircuitExpression>, rules: Seq<Substitution>, floor: int)
    -> bool {
    forall|i: int|
        0 <= i < rules.len() ==> {
            &&& (#[trigger] rules[i]).constraint >= floor + 3
            &&& rules[i].constraint < exprs.len()
            &&& exprs[rules[i].constraint as int].lhs() < floor
        }
}

/// Where there are no rules, whatever is asked of the rules holds.
pub proof fn lemma_no_rules(
    exprs: Seq<CircuitExpression>,
    dual_row: bool,
    base: bool,
    first_index: usize,
    target: u64,
    floor: int,
)
    ensures
        rules_hold(exprs, Seq::<Substitution>::empty(), dual_row, base, first_index, target),
        rules_above(exprs, Seq::<Substitution>::empty(), floor),
{
    reveal(rules_hold);
    reveal(rules_above);
}

/// A later substitution leaves the earlier rules as they are, and raises no
/// rule's degree.
pub proof fn lemma_rules_survive(
    a: Seq<CircuitExpression>,
    rules: Seq<Substitution>,
    s: int,
    column: InputIndicator,
    dual_row: bool,
    base: bool,
    first_index: usize,
    target: u64,
    floor: int,
)
    requires
        well_formed(a),
        0 <= s < floor <= a.len(),
        a[s] is BinaryOperation,
        degree_of(a, s) >= 1,
        (column.table == Table::Main) == base_valued(a, s),
        a.len() + 3 <= usize::MAX,
        rules_hold(a, rules, dual_row, base, first_index, target),
        rules_above(a, rules, floor),
    ensures
        rules_hold(substituted(a, s, column), rules, dual_row, base, first_index, target),
        rules_above(substituted(a, s, column), rules, floor),
{
    reveal(rules_hold);
    reveal(rules_above);
    let b = substituted(a, s, column);
    lemma_substituted(a, s, column);
    assert forall|i: int| 0 <= i < rules.len() implies {
        &&& (#[trigger] rules[i]).column == fresh_column(
            dual_row,
            base,
            (first_index + i) as usize,
        )
        &&& is_substitution_rule(b, rules[i].constraint as int, rules[i].column)
        &&& degree_of(b, rules[i].constraint as int) <= target
        &&& rules[i].constraint >= floor + 3
        &&& rules[i].constraint < b.len()
        &&& b[rules[i].constraint as int].lhs() < floor
    } by {
        let rule = rules[i].constraint as int;
        assert(is_substitution_rule(a, rule, rules[i].column));
        assert(b[rule] == a[rule]);
        assert(b[rule - 1] == a[rule - 1]);
        assert(b[rule - 2] == a[rule - 2]);
        let lhs = a[rule].lhs() as int;
        assert(lhs != s);
        assert(b[lhs] == a[lhs]);
        assert(degree_of(b, rule) <= degree_of(a, rule));
    }
}

/// The rule made last holds what the earlier ones hold.
pub proof fn lemma_rules_extend(
    exprs: Seq<CircuitExpression>,
    rules: Seq<Substitution>,
    dual_row: bool,
    base: bool,
    first_index: usize,
    target: u64,
    floor: int,
)
    requires
        rules.len() > 0,
        rules_hold(exprs, rules.drop_last(), dual_row, base, first_index, target),
        rules_above(exprs, rules.drop_last(), floor),
        rules.last().constraint >= floor + 3,
        rules.last().constraint < exprs.len(),
        exprs[rules.last().constraint as int].lhs() < floor,
        rules.last().column == fresh_column(
            dual_row,
            base,
            (first_index + rules.len() - 1) as usize,
        ),
        is_substitution_rule(exprs, rules.last().constraint as int, rules.last().column),
        degree_of(exprs, rules.last().constraint as int) <= target,
    ensures
        rules_hold(exprs, rules, dual_row, base, first_index, target),
        rules_above(exprs, rules, floor),
{
    reveal(rules_hold);
    reveal(rules_above);
    assert forall|i: int| 0 <= i < rules.len() implies {
        &&& (#[trigger] rules[i]).column == fresh_column(
            dual_row,
            base,
            (first_index + i) as usize,
        )
        &&& is_substitution_rule(exprs, rules[i].constraint as int, rules[i].column)
        &&& degree_of(exprs, rules[i].constraint as int) <= target
        &&& rules[i].constraint >= floor + 3
        &&& rules[i].constraint < exprs.len()
        &&& exprs[rules[i].constraint as int].lhs() < floor
    } by {
        if i < rules.len() - 1 {
            assert(rules.drop_last()[i] == rules[i]);
        }
    }
}

} // verus!
