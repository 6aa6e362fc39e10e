//! What circuits mean: the value of every node under an assignment of values
//! to inputs and challenges, and the laws that the steps of the compiler
//! respect.

use crate::builder::combined;
use crate::builder::difference;
use crate::builder::graph_with_difference;
use crate::builder::graph_with_negation;
use crate::builder::minus_one;
use crate::builder::negation;
use crate::builder::ext_result;
use crate::builder::interned;
use crate::circuit::well_formed;
use crate::circuit::BinOp;
use crate::circuit::CircuitExpression;
use crate::circuit::InputIndicator;
use crate::expression::expression_of;
use crate::expression::Expr;
use crate::field::lifted;
use crate::field::reduce;
use crate::circuit::Multicircuit;
use crate::lowering::can_step;
use crate::lowering::excess;
use crate::lowering::first_above;
use crate::lowering::lemma_first_above;
use crate::lowering::lemma_lowest_above;
use crate::lowering::lemma_step;
use crate::lowering::lemma_step_of;
use crate::lowering::lowered;
use crate::lowering::lowered_batch;
use crate::lowering::lowest_above;
use crate::lowering::node_to_replace;
use crate::lowering::step;
use crate::lowering::substituted;
use crate::lowering::fresh_column;
use crate::lowering::DegreeLoweringInfo;
use crate::lowering::LoweringState;
use crate::lowering::Substitution;
use crate::circuit::base_valued;
use crate::circuit::base_first;
use crate::circuit::lemma_base_first;
use crate::circuit::roots_in_range;
use crate::circuit::roots_of_field;
use crate::native::declarations_of;
use crate::native::is_bucket_code;
use crate::native::Binding;
use crate::native::BucketCode;
use crate::sharing::lemma_shared_nodes;
use crate::sharing::shared_nodes;
use vstd::arithmetic::div_mod::lemma_add_mod_noop_right;
use vstd::arithmetic::div_mod::lemma_mod_multiples_basic;
use crate::field::ExtensionElement;
use crate::field::P;
use vstd::prelude::*;

verus! {

/// Values for everything a circuit reads. Main table cells hold base field
/// elements; the assignment gives them as extension field elements too.
pub struct Assignment {
    pub inputs: spec_fn(InputIndicator) -> ExtensionElement,
    pub challenges: spec_fn(usize) -> ExtensionElement,
}

/// The value of node `n` under `env`.
pub open spec fn value_of(exprs: Seq<CircuitExpression>, n: int, env: Assignment)
    -> ExtensionElement
    decreases n,
{
    if 0 <= n < exprs.len() {
        match exprs[n] {
            CircuitExpression::BConstant(v) => lifted(v),
            CircuitExpression::XConstant(x) => x,
            CircuitExpression::Input(input) => (env.inputs)(input),
            CircuitExpression::Challenge(index) => (env.challenges)(index),
            CircuitExpression::BinaryOperation(op, l, r) => {
                if l < n && r < n {
                    ext_result(op, value_of(exprs, l as int, env), value_of(exprs, r as int, env))
                } else {
                    lifted(0)
                }
            },
        }
    } else {
        lifted(0)
    }
}

/// The value of an expression under `env`, where `bindings` gives the values
/// of the nodes that the expression refers to by name.
pub open spec fn eval(e: Expr, env: Assignment, bindings: Map<usize, ExtensionElement>)
    -> ExtensionElement
    decreases e,
{
    match e {
        Expr::BConstant(v) => lifted(v),
        Expr::XConstant(x) => x,
        Expr::Input(input) => (env.inputs)(input),
        Expr::Challenge(index) => (env.challenges)(index),
        Expr::Node(n) => bindings[n],
        Expr::BinaryOperation(op, l, r) => ext_result(
            op,
            eval(*l, env, bindings),
            eval(*r, env, bindings),
        ),
    }
}

/// The value of a node depends only on the nodes before it and on the node
/// itself.
pub proof fn lemma_value_of_prefix(
    a: Seq<CircuitExpression>,
    b: Seq<CircuitExpression>,
    n: int,
    env: Assignment,
)
    requires
        0 <= n < a.len() <= b.len(),
        forall|i: int| 0 <= i <= n ==> a[i] == b[i],
    ensures
        value_of(a, n, env) == value_of(b, n, env),
    decreases n,
{
    match a[n] {
        CircuitExpression::BinaryOperation(_, l, r) => {
            if l < n && r < n {
                lemma_value_of_prefix(a, b, l as int, env);
                lemma_value_of_prefix(a, b, r as int, env);
            }
        },
        _ => {},
    }
}

/// An expression has the value of the node it was made for, provided the
/// bindings hold the values of the nodes it refers to by name.
pub proof fn lemma_expression_value(
    exprs: Seq<CircuitExpression>,
    bound: Set<usize>,
    n: usize,
    env: Assignment,
    bindings: Map<usize, ExtensionElement>,
)
    requires
        well_formed(exprs),
        n < exprs.len(),
        forall|k: usize|
            bound.contains(k) && k <= n ==> #[trigger] bindings[k] == value_of(exprs, k as int, env),
    ensures
        eval(expression_of(exprs, bound, n), env, bindings) == value_of(exprs, n as int, env),
    decreases n,
{
    assert(exprs[n as int].fits_at(n as int));
    match exprs[n as int] {
        CircuitExpression::BinaryOperation(op, l, r) => {
            if !bound.contains(n) {
                lemma_expression_value(exprs, bound, l, env, bindings);
                lemma_expression_value(exprs, bound, r, env, bindings);
            }
        },
        _ => {},
    }
}

/// Constant folding is sound: the node that the builder hands out for
/// `a op b` has the value of `a` and the value of `b` combined by `op`, and
/// the nodes that were there keep their values.
pub proof fn lemma_combined_value(
    exprs: Seq<CircuitExpression>,
    op: BinOp,
    a: usize,
    b: usize,
    r: int,
    env: Assignment,
)
    requires
        well_formed(exprs),
        a < exprs.len(),
        b < exprs.len(),
        0 <= r < interned(exprs, combined(exprs, op, a, b)).len(),
        interned(exprs, combined(exprs, op, a, b))[r] == combined(exprs, op, a, b),
    ensures
        value_of(interned(exprs, combined(exprs, op, a, b)), r, env) == ext_result(
            op,
            value_of(exprs, a as int, env),
            value_of(exprs, b as int, env),
        ),
        forall|n: int|
            0 <= n < exprs.len() ==> value_of(interned(exprs, combined(exprs, op, a, b)), n, env)
                == value_of(exprs, n, env),
{
    let e = combined(exprs, op, a, b);
    let g = interned(exprs, e);
    assert forall|n: int| 0 <= n < exprs.len() implies value_of(g, n, env) == value_of(
        exprs,
        n,
        env,
    ) by {
        lemma_value_of_prefix(exprs, g, n, env);
    }
    assert(exprs[a as int].fits_at(a as int));
    assert(exprs[b as int].fits_at(b as int));
    if r < exprs.len() {
        assert(exprs[r].fits_at(r));
    }
    match e {
        CircuitExpression::BinaryOperation(_, _, _) => {
            assert(e == CircuitExpression::BinaryOperation(op, a, b));
            if r < exprs.len() {
                assert(g[r] == e);
            }
            assert(value_of(g, r, env) == ext_result(
                op,
                value_of(g, a as int, env),
                value_of(g, b as int, env),
            ));
        },
        _ => {
            lemma_lifted_result(op, exprs[a as int], exprs[b as int]);
        },
    }
}

/// Folding two base field constants in the base field gives what folding
/// them in the extension field gives.
pub proof fn lemma_lifted_result(op: BinOp, a: CircuitExpression, b: CircuitExpression)
    ensures
        match (a, b) {
            (CircuitExpression::BConstant(x), CircuitExpression::BConstant(y)) => lifted(
                crate::builder::base_result(op, x, y),
            ) == ext_result(op, lifted(x), lifted(y)),
            _ => true,
        },
{
    match (a, b) {
        (CircuitExpression::BConstant(x), CircuitExpression::BConstant(y)) => {
            let lx = lifted(x);
            let ly = lifted(y);
            assert(lx.c1 * ly.c0 == 0) by (nonlinear_arith)
                requires
                    lx.c1 == 0,
            ;
            assert(lx.c2 * ly.c0 == 0) by (nonlinear_arith)
                requires
                    lx.c2 == 0,
            ;
            assert(lx.c0 * ly.c1 == 0) by (nonlinear_arith)
                requires
                    ly.c1 == 0,
            ;
            assert(lx.c0 * ly.c2 == 0) by (nonlinear_arith)
                requires
                    ly.c2 == 0,
            ;
            assert(lx.c1 * ly.c1 == 0 && lx.c1 * ly.c2 == 0 && lx.c2 * ly.c1 == 0 && lx.c2 * ly.c2
                == 0);
        },
        _ => {},
    }
}

/// The difference of two elements of the extension field, coefficient by
/// coefficient.
pub open spec fn ext_difference(x: ExtensionElement, y: ExtensionElement) -> ExtensionElement {
    ExtensionElement {
        c0: reduce(x.c0 - y.c0) as u64,
        c1: reduce(x.c1 - y.c1) as u64,
        c2: reduce(x.c2 - y.c2) as u64,
    }
}

/// Adding -1 times a number is subtracting the number, in the base field.
pub proof fn lemma_plus_minus_one_times(x: int, y: int)
    ensures
        reduce(x + reduce((P - 1) * y)) == reduce(x - y),
{
    let p = P as int;
    lemma_add_mod_noop_right(x, (p - 1) * y, p);
    assert(x + (p - 1) * y == p * y + (x - y)) by (nonlinear_arith);
    vstd::arithmetic::div_mod::lemma_mod_multiples_vanish(y, x - y, p);
}

/// Adding -1 times an element is subtracting the element.
pub proof fn lemma_sum_with_negated(x: ExtensionElement, y: ExtensionElement)
    ensures
        ext_result(BinOp::Add, x, ext_result(BinOp::Mul, lifted((P - 1) as u64), y))
            == ext_difference(x, y),
{
    let m = lifted((P - 1) as u64);
    assert(m.c1 * y.c0 == 0 && m.c1 * y.c1 == 0 && m.c1 * y.c2 == 0) by (nonlinear_arith)
        requires
            m.c1 == 0,
    ;
    assert(m.c2 * y.c0 == 0 && m.c2 * y.c1 == 0 && m.c2 * y.c2 == 0) by (nonlinear_arith)
        requires
            m.c2 == 0,
    ;
    lemma_plus_minus_one_times(x.c0 as int, y.c0 as int);
    lemma_plus_minus_one_times(x.c1 as int, y.c1 as int);
    lemma_plus_minus_one_times(x.c2 as int, y.c2 as int);
}

/// Asking for an expression that fits keeps the graph well-formed and the
/// values of its nodes, and the expression is then held by some node.
pub proof fn lemma_interned(exprs: Seq<CircuitExpression>, e: CircuitExpression, env: Assignment)
    requires
        well_formed(exprs),
        e.fits_at(exprs.len() as int),
    ensures
        well_formed(interned(exprs, e)),
        exprs.len() <= interned(exprs, e).len(),
        interned(exprs, e).contains(e),
        0 <= interned(exprs, e).index_of(e) < interned(exprs, e).len(),
        interned(exprs, e)[interned(exprs, e).index_of(e)] == e,
        forall|n: int|
            0 <= n < exprs.len() ==> interned(exprs, e)[n] == exprs[n] && value_of(
                interned(exprs, e),
                n,
                env,
            ) == value_of(exprs, n, env),
{
    let g = interned(exprs, e);
    assert forall|n: int| 0 <= n < g.len() implies (#[trigger] g[n]).fits_at(n) by {
        if n < exprs.len() {
            assert(exprs[n].fits_at(n));
        }
    }
    if !exprs.contains(e) {
        assert(g[exprs.len() as int] == e);
    }
    assert(g.contains(e));
    assert forall|n: int| 0 <= n < exprs.len() implies g[n] == exprs[n] && value_of(g, n, env)
        == value_of(exprs, n, env) by {
        lemma_value_of_prefix(exprs, g, n, env);
    }
}

/// What combining two nodes gives fits at the end of the graph.
pub proof fn lemma_combined_fits(exprs: Seq<CircuitExpression>, op: BinOp, a: usize, b: usize)
    requires
        a < exprs.len(),
        b < exprs.len(),
    ensures
        combined(exprs, op, a, b).fits_at(exprs.len() as int),
{
}

/// -1 times an element, coefficient by coefficient.
pub open spec fn ext_negation(y: ExtensionElement) -> ExtensionElement {
    ext_result(BinOp::Mul, lifted((P - 1) as u64), y)
}

/// Negation is sound: the node that the builder hands out for `-b` has the
/// value of -1 times the value of `b`, and the nodes that were there keep
/// their values.
pub proof fn lemma_negation_value(
    exprs: Seq<CircuitExpression>,
    b: usize,
    r: int,
    env: Assignment,
)
    requires
        well_formed(exprs),
        exprs.len() < usize::MAX,
        b < exprs.len(),
        0 <= r < graph_with_negation(exprs, b).len(),
        graph_with_negation(exprs, b)[r] == negation(exprs, b),
    ensures
        well_formed(graph_with_negation(exprs, b)),
        exprs.len() <= graph_with_negation(exprs, b).len() <= exprs.len() + 2,
        value_of(graph_with_negation(exprs, b), r, env) == ext_negation(
            value_of(exprs, b as int, env),
        ),
        forall|n: int|
            0 <= n < exprs.len() ==> value_of(graph_with_negation(exprs, b), n, env) == value_of(
                exprs,
                n,
                env,
            ),
{
    let g1 = interned(exprs, minus_one());
    lemma_interned(exprs, minus_one(), env);
    let m = g1.index_of(minus_one());
    assert(g1[m] == minus_one());
    assert(value_of(g1, m, env) == lifted((P - 1) as u64));
    assert(value_of(g1, b as int, env) == value_of(exprs, b as int, env));
    let negated = negation(exprs, b);
    assert(negated == combined(g1, BinOp::Mul, m as usize, b));
    lemma_combined_fits(g1, BinOp::Mul, m as usize, b);
    let g2 = interned(g1, negated);
    lemma_interned(g1, negated, env);
    lemma_combined_value(g1, BinOp::Mul, m as usize, b, r, env);
    assert forall|n: int| 0 <= n < exprs.len() implies value_of(g2, n, env) == value_of(
        exprs,
        n,
        env,
    ) by {
        assert(value_of(g1, n, env) == value_of(exprs, n, env));
        assert(value_of(g2, n, env) == value_of(g1, n, env));
    }
}

/// Subtraction is sound: the node that the builder hands out for `a - b`
/// has the value of `a` minus the value of `b`, and the nodes that were
/// there keep their values.
pub proof fn lemma_difference_value(
    exprs: Seq<CircuitExpression>,
    a: usize,
    b: usize,
    r: int,
    env: Assignment,
)
    requires
        well_formed(exprs),
        exprs.len() + 2 < usize::MAX,
        a < exprs.len(),
        b < exprs.len(),
        0 <= r < graph_with_difference(exprs, a, b).len(),
        graph_with_difference(exprs, a, b)[r] == difference(exprs, a, b),
    ensures
        value_of(graph_with_difference(exprs, a, b), r, env) == ext_difference(
            value_of(exprs, a as int, env),
            value_of(exprs, b as int, env),
        ),
        forall|n: int|
            0 <= n < exprs.len() ==> value_of(graph_with_difference(exprs, a, b), n, env)
                == value_of(exprs, n, env),
{
    let va = value_of(exprs, a as int, env);
    let vb = value_of(exprs, b as int, env);
    let g2 = graph_with_negation(exprs, b);
    let negated = negation(exprs, b);
    lemma_interned(exprs, minus_one(), env);
    lemma_combined_fits(
        interned(exprs, minus_one()),
        BinOp::Mul,
        interned(exprs, minus_one()).index_of(minus_one()) as usize,
        b,
    );
    lemma_interned(interned(exprs, minus_one()), negated, env);
    let n = g2.index_of(negated);
    lemma_negation_value(exprs, b, n, env);
    assert(value_of(g2, a as int, env) == va);
    let g3 = graph_with_difference(exprs, a, b);
    assert(difference(exprs, a, b) == combined(g2, BinOp::Add, a, n as usize));
    lemma_combined_value(g2, BinOp::Add, a, n as usize, r, env);
    lemma_sum_with_negated(va, vb);
    assert forall|k: int| 0 <= k < exprs.len() implies value_of(g3, k, env) == value_of(
        exprs,
        k,
        env,
    ) by {
        assert(value_of(g2, k, env) == value_of(exprs, k, env));
        assert(value_of(g3, k, env) == value_of(g2, k, env));
    }
}

/// The zero of the extension field.
pub open spec fn zero() -> ExtensionElement {
    lifted(0)
}

/// Adding -1 times a number to the number gives zero in the base field.
pub proof fn lemma_minus_one_times(v: int)
    ensures
        reduce(v + reduce((P - 1) * v)) == 0,
{
    let p = P as int;
    lemma_add_mod_noop_right(v, (p - 1) * v, p);
    assert(v + (p - 1) * v == v * p) by (nonlinear_arith);
    lemma_mod_multiples_basic(v, p);
}

/// An element plus -1 times the element is zero.
pub proof fn lemma_difference_with_itself(v: ExtensionElement)
    ensures
        ext_result(BinOp::Add, v, ext_result(BinOp::Mul, lifted((P - 1) as u64), v)) == zero(),
{
    let m = lifted((P - 1) as u64);
    assert(m.c1 * v.c0 == 0 && m.c1 * v.c1 == 0 && m.c1 * v.c2 == 0) by (nonlinear_arith)
        requires
            m.c1 == 0,
    ;
    assert(m.c2 * v.c0 == 0 && m.c2 * v.c1 == 0 && m.c2 * v.c2 == 0) by (nonlinear_arith)
        requires
            m.c2 == 0,
    ;
    lemma_minus_one_times(v.c0 as int);
    lemma_minus_one_times(v.c1 as int);
    lemma_minus_one_times(v.c2 as int);
}

/// Putting an input in the place of a node changes no value, if the input
/// has the value of the node.
pub proof fn lemma_update_value(
    a: Seq<CircuitExpression>,
    s: int,
    column: InputIndicator,
    n: int,
    env: Assignment,
)
    requires
        well_formed(a),
        0 <= s < a.len(),
        0 <= n < a.len(),
        (env.inputs)(column) == value_of(a, s, env),
    ensures
        value_of(a.update(s, CircuitExpression::Input(column)), n, env) == value_of(a, n, env),
    decreases n,
{
    let u = a.update(s, CircuitExpression::Input(column));
    if n != s {
        assert(u[n] == a[n]);
        assert(a[n].fits_at(n));
        match a[n] {
            CircuitExpression::BinaryOperation(_, l, r) => {
                lemma_update_value(a, s, column, l as int, env);
                lemma_update_value(a, s, column, r as int, env);
            },
            _ => {},
        }
    }
}

/// One substitution preserves meaning: under an assignment that gives the
/// fresh column the value of the replaced node, every node that was there
/// keeps its value, and the rule's constraint is zero.
pub proof fn lemma_substitution_preserves_values(
    a: Seq<CircuitExpression>,
    s: int,
    column: InputIndicator,
    env: Assignment,
)
    requires
        well_formed(a),
        0 <= s < a.len(),
        a[s] is BinaryOperation,
        a.len() + 3 <= usize::MAX,
        (env.inputs)(column) == value_of(a, s, env),
    ensures
        forall|n: int|
            0 <= n < a.len() ==> value_of(substituted(a, s, column), n, env) == value_of(a, n, env),
        value_of(substituted(a, s, column), a.len() as int + 3, env) == zero(),
{
    let len = a.len() as int;
    let u = a.update(s, CircuitExpression::Input(column));
    let b = substituted(a, s, column);
    assert forall|n: int| 0 <= n < len implies value_of(b, n, env) == value_of(a, n, env) by {
        lemma_update_value(a, s, column, n, env);
        lemma_value_of_prefix(u, b, n, env);
    }
    assert(a[s].fits_at(s));
    let l = a[s].lhs() as int;
    let r = a[s].rhs() as int;
    let v = value_of(a, s, env);
    assert(b[len] == a[s]);
    assert(value_of(b, l, env) == value_of(a, l, env));
    assert(value_of(b, r, env) == value_of(a, r, env));
    assert(v == ext_result(
        a[s]->BinaryOperation_0,
        value_of(a, l, env),
        value_of(a, r, env),
    ));
    assert(value_of(b, len, env) == ext_result(
        a[s]->BinaryOperation_0,
        value_of(b, l, env),
        value_of(b, r, env),
    ));
    assert(value_of(b, len, env) == v);
    assert(b[len + 1] == CircuitExpression::BConstant((P - 1) as u64));
    assert(value_of(b, len + 1, env) == lifted((P - 1) as u64));
    assert(b[len + 2] == CircuitExpression::BinaryOperation(
        BinOp::Mul,
        (len + 1) as usize,
        len as usize,
    ));
    assert(value_of(b, len + 2, env) == ext_result(BinOp::Mul, lifted((P - 1) as u64), v));
    assert(b[len + 3] == CircuitExpression::BinaryOperation(
        BinOp::Add,
        s as usize,
        (len + 2) as usize,
    ));
    assert(b[s] == CircuitExpression::Input(column));
    assert(value_of(b, s, env) == v);
    assert(value_of(b, len + 3, env) == ext_result(
        BinOp::Add,
        v,
        ext_result(BinOp::Mul, lifted((P - 1) as u64), v),
    ));
    lemma_difference_with_itself(v);
}

/// The assignment fills every fresh column by its rule: the column has the
/// value of the rule's fill expression.
pub open spec fn fills_hold(env: Assignment, rules: Seq<Substitution>) -> bool {
    forall|j: int|
        0 <= j < rules.len() ==> (env.inputs)((#[trigger] rules[j]).column) == eval(
            rules[j].fill,
            env,
            Map::<usize, ExtensionElement>::empty(),
        )
}

/// `a` is the beginning of `b`.
pub open spec fn is_prefix(a: Seq<Substitution>, b: Seq<Substitution>) -> bool {
    a.len() <= b.len() && forall|j: int| 0 <= j < a.len() ==> a[j] == b[j]
}

/// What lowering does to the meaning of a graph, from any state on: under
/// an assignment that fills the fresh columns by their rules, the nodes that
/// were there keep their values and the constraints of the rules made from
/// here on are zero.
pub proof fn lemma_lowered_preserves_values(
    st: LoweringState,
    roots: Seq<usize>,
    dual_row: bool,
    info: DegreeLoweringInfo,
    bound: int,
    env: Assignment,
)
    requires
        fills_hold(env, lowered(st, roots, dual_row, info, bound).main),
        fills_hold(env, lowered(st, roots, dual_row, info, bound).aux),
    ensures
        st.exprs.len() <= lowered(st, roots, dual_row, info, bound).exprs.len(),
        is_prefix(st.main, lowered(st, roots, dual_row, info, bound).main),
        is_prefix(st.aux, lowered(st, roots, dual_row, info, bound).aux),
        forall|n: int|
            0 <= n < st.exprs.len() ==> value_of(
                lowered(st, roots, dual_row, info, bound).exprs,
                n,
                env,
            ) == value_of(st.exprs, n, env),
        forall|j: int|
            st.main.len() <= j < lowered(st, roots, dual_row, info, bound).main.len() ==> value_of(
                lowered(st, roots, dual_row, info, bound).exprs,
                (#[trigger] lowered(st, roots, dual_row, info, bound).main[j]).constraint as int,
                env,
            ) == zero(),
        forall|j: int|
            st.aux.len() <= j < lowered(st, roots, dual_row, info, bound).aux.len() ==> value_of(
                lowered(st, roots, dual_row, info, bound).exprs,
                (#[trigger] lowered(st, roots, dual_row, info, bound).aux[j]).constraint as int,
                env,
            ) == zero(),
    decreases excess(st.exprs, bound, info.target_degree as nat),
{
    let fin = lowered(st, roots, dual_row, info, bound);
    if can_step(st.exprs, roots, bound, info.target_degree) {
        let next = step(st, roots, dual_row, info);
        lemma_step_of(st, roots, dual_row, info, bound);
        assert(fin == lowered(next, roots, dual_row, info, bound));
        lemma_lowered_preserves_values(next, roots, dual_row, info, bound, env);
        // what the step did
        let target = info.target_degree as nat;
        let a = st.exprs;
        lemma_first_above(a, roots, target);
        let root = roots[first_above(a, roots, target)] as int;
        lemma_lowest_above(a, root, target);
        let h = lowest_above(a, root, target);
        let s = node_to_replace(a, root, target);
        let base = base_valued(a, s);
        let index = if base {
            info.num_main_cols + st.main.len()
        } else {
            info.num_aux_cols + st.aux.len()
        };
        let column = fresh_column(dual_row, base, index as usize);
        lemma_step(a, h, s, column, info.target_degree, bound);
        let rule = if base {
            next.main.last()
        } else {
            next.aux.last()
        };
        assert(rule.column == column);
        assert(rule.fill == expression_of(a, Set::<usize>::empty(), s as usize));
        assert(rule.constraint == a.len() + 3);
        // the assignment gives the fresh column the value of the replaced node
        if base {
            assert(fin.main[st.main.len() as int] == next.main[st.main.len() as int]);
        } else {
            assert(fin.aux[st.aux.len() as int] == next.aux[st.aux.len() as int]);
        }
        lemma_expression_value(
            a,
            Set::<usize>::empty(),
            s as usize,
            env,
            Map::<usize, ExtensionElement>::empty(),
        );
        assert((env.inputs)(column) == value_of(a, s, env));
        lemma_substitution_preserves_values(a, s, column, env);
        assert forall|n: int| 0 <= n < a.len() implies value_of(fin.exprs, n, env) == value_of(
            a,
            n,
            env,
        ) by {
            assert(value_of(fin.exprs, n, env) == value_of(next.exprs, n, env));
        }
        assert(value_of(fin.exprs, a.len() as int + 3, env) == zero()) by {
            assert(value_of(fin.exprs, a.len() as int + 3, env) == value_of(next.exprs, a.len() as int + 3, env));
        }
        assert forall|j: int| st.main.len() <= j < fin.main.len() implies value_of(
            fin.exprs,
            (#[trigger] fin.main[j]).constraint as int,
            env,
        ) == zero() by {
            if j < next.main.len() {
                assert(fin.main[j] == next.main[j]);
            }
        }
        assert forall|j: int| st.aux.len() <= j < fin.aux.len() implies value_of(
            fin.exprs,
            (#[trigger] fin.aux[j]).constraint as int,
            env,
        ) == zero() by {
            if j < next.aux.len() {
                assert(fin.aux[j] == next.aux[j]);
            }
        }
        assert(is_prefix(st.main, fin.main)) by {
            assert forall|j: int| 0 <= j < st.main.len() implies st.main[j] == fin.main[j] by {
                assert(next.main[j] == st.main[j]);
            }
        }
        assert(is_prefix(st.aux, fin.aux)) by {
            assert forall|j: int| 0 <= j < st.aux.len() implies st.aux[j] == fin.aux[j] by {
                assert(next.aux[j] == st.aux[j]);
            }
        }
    }
}

/// Degree lowering preserves meaning. Take any assignment that fills the
/// fresh columns by the rules that lowering made. Then every constraint of
/// the batch has the value after lowering that it had before, and the
/// constraint of every rule is zero.
pub proof fn lemma_lowering_preserves_meaning(
    before: Multicircuit,
    info: DegreeLoweringInfo,
    env: Assignment,
)
    requires
        before.wf(),
        fills_hold(env, lowered_batch(before, info).main),
        fills_hold(env, lowered_batch(before, info).aux),
    ensures
        forall|i: int|
            0 <= i < before.roots@.len() ==> value_of(
                lowered_batch(before, info).exprs,
                #[trigger] before.roots@[i] as int,
                env,
            ) == value_of(before.expressions@, before.roots@[i] as int, env),
        forall|j: int|
            0 <= j < lowered_batch(before, info).main.len() ==> value_of(
                lowered_batch(before, info).exprs,
                (#[trigger] lowered_batch(before, info).main[j]).constraint as int,
                env,
            ) == zero(),
        forall|j: int|
            0 <= j < lowered_batch(before, info).aux.len() ==> value_of(
                lowered_batch(before, info).exprs,
                (#[trigger] lowered_batch(before, info).aux[j]).constraint as int,
                env,
            ) == zero(),
{
    let st = LoweringState {
        exprs: before.expressions@,
        main: Seq::<Substitution>::empty(),
        aux: Seq::<Substitution>::empty(),
    };
    lemma_lowered_preserves_values(
        st,
        before.roots@,
        before.dual_row,
        info,
        before.expressions@.len() as int,
        env,
    );
    assert forall|i: int| 0 <= i < before.roots@.len() implies value_of(
        lowered_batch(before, info).exprs,
        #[trigger] before.roots@[i] as int,
        env,
    ) == value_of(before.expressions@, before.roots@[i] as int, env) by {
        assert(before.roots@[i] < before.expressions@.len());
    }
}

/// The values of `roots`, in order.
pub open spec fn values_of(exprs: Seq<CircuitExpression>, roots: Seq<usize>, env: Assignment) -> Seq<
    ExtensionElement,
> {
    Seq::new(roots.len(), |i: int| value_of(exprs, roots[i] as int, env))
}

/// The bindings that hold once the declarations have been evaluated in
/// order: each declaration is evaluated under the bindings before it and
/// binds its node to the result.
pub open spec fn bound_values(decls: Seq<Binding>, env: Assignment) -> Map<usize, ExtensionElement>
    decreases decls.len(),
{
    if decls.len() == 0 {
        Map::<usize, ExtensionElement>::empty()
    } else {
        let before = bound_values(decls.drop_last(), env);
        before.insert(decls.last().node, eval(decls.last().value, env, before))
    }
}

/// The values of the expressions under the given bindings, in order.
pub open spec fn evals(es: Seq<Expr>, env: Assignment, bindings: Map<usize, ExtensionElement>) -> Seq<
    ExtensionElement,
> {
    Seq::new(es.len(), |i: int| eval(es[i], env, bindings))
}

/// What the evaluation of a bucket's native code yields: the values of the
/// base field constraint expressions followed by those of the extension
/// field constraint expressions, under the bindings of the declarations.
pub open spec fn native_result(code: BucketCode, env: Assignment) -> Seq<ExtensionElement> {
    let bindings = bound_values(code.shared_declarations@, env);
    evals(code.base_constraints@, env, bindings) + evals(code.ext_constraints@, env, bindings)
}

/// Evaluating the first `i` declarations binds each of their nodes to the
/// node's value.
pub proof fn lemma_declarations_hold_values(
    exprs: Seq<CircuitExpression>,
    nodes: Seq<usize>,
    env: Assignment,
    i: int,
)
    requires
        well_formed(exprs),
        forall|j: int| 0 <= j < nodes.len() ==> #[trigger] nodes[j] < exprs.len(),
        0 <= i <= nodes.len(),
    ensures
        forall|j: int|
            0 <= j < i ==> bound_values(declarations_of(exprs, nodes).take(i), env)[#[trigger] nodes[j]]
                == value_of(exprs, nodes[j] as int, env),
    decreases i,
{
    if i > 0 {
        let decls = declarations_of(exprs, nodes);
        let before = bound_values(decls.take(i - 1), env);
        lemma_declarations_hold_values(exprs, nodes, env, i - 1);
        assert(decls.take(i).drop_last() =~= decls.take(i - 1));
        let earlier = nodes.take(i - 1);
        let bound = earlier.to_set();
        assert forall|k: usize| bound.contains(k) implies #[trigger] before[k] == value_of(
            exprs,
            k as int,
            env,
        ) by {
            let j = choose|j: int| 0 <= j < earlier.len() && earlier[j] == k;
            assert(nodes[j] == k);
        }
        lemma_expression_value(exprs, bound, nodes[i - 1], env, before);
        assert(decls.take(i).last() == decls[i - 1]);
    }
}

/// The native code of a bucket computes the constraints: evaluated under
/// any assignment, it yields the value of every constraint, base field
/// constraints first.
pub proof fn lemma_native_code_values(
    exprs: Seq<CircuitExpression>,
    roots: Seq<usize>,
    code: BucketCode,
    env: Assignment,
)
    requires
        well_formed(exprs),
        roots_in_range(roots, exprs.len() as int),
        is_bucket_code(exprs, roots, code),
    ensures
        native_result(code, env) == values_of(exprs, base_first(exprs, roots), env),
{
    let shared = shared_nodes(exprs, roots);
    lemma_shared_nodes(exprs, roots);
    lemma_declarations_hold_values(exprs, shared, env, shared.len() as int);
    assert(declarations_of(exprs, shared).take(shared.len() as int) =~= declarations_of(
        exprs,
        shared,
    ));
    let bindings = bound_values(code.shared_declarations@, env);
    let bound = shared.to_set();
    assert forall|k: usize| bound.contains(k) implies #[trigger] bindings[k] == value_of(
        exprs,
        k as int,
        env,
    ) by {
        let j = choose|j: int| 0 <= j < shared.len() && shared[j] == k;
        assert(shared[j] == k);
    }
    lemma_base_first(exprs, roots);
    let b = roots_of_field(exprs, roots, true);
    let e = roots_of_field(exprs, roots, false);
    let all = base_first(exprs, roots);
    assert forall|i: int| 0 <= i < all.len() implies #[trigger] all[i] < exprs.len() by {
        assert(all.contains(all[i]));
        assert(roots.contains(all[i]));
        let j = choose|j: int| 0 <= j < roots.len() && roots[j] == all[i];
        assert(roots[j] < exprs.len());
    }
    let result = native_result(code, env);
    let wanted = values_of(exprs, all, env);
    assert(result.len() == wanted.len());
    assert forall|i: int| 0 <= i < result.len() implies result[i] == wanted[i] by {
        assert(all[i] < exprs.len());
        lemma_expression_value(exprs, bound, all[i], env, bindings);
        if i < b.len() {
            assert(all[i] == b[i]);
        } else {
            assert(all[i] == e[i - b.len()]);
        }
    }
    assert(result =~= wanted);
}

} // verus!
