//! Expression trees: what the native backend emits in place of target
//! syntax. A tree spells out an operation down to its leaves, except where it
//! refers to a node whose value has been bound to a name before.

use crate::circuit::BinOp;
use crate::circuit::CircuitExpression;
use crate::circuit::InputIndicator;
use crate::circuit::Multicircuit;
use crate::field::ExtensionElement;
use std::collections::HashSet;
use vstd::prelude::*;
use vstd::std_specs::hash::group_hash_axioms;

verus! {

broadcast use group_hash_axioms;

/// An expression over constants, inputs, challenges and bound nodes.
#[derive(Debug, PartialEq, Eq)]
pub enum Expr {
    BConstant(u64),
    XConstant(ExtensionElement),
    Input(InputIndicator),
    Challenge(usize),
    /// The value that was bound to the node with this number.
    Node(usize),
    BinaryOperation(BinOp, Box<Expr>, Box<Expr>),
}

/// The name by which a node is referred to without computing anything: the
/// constant, input or challenge itself for a leaf, the node's binding for an
/// operation.
pub open spec fn binding_name(e: CircuitExpression, n: usize) -> Expr {
    match e {
        CircuitExpression::BConstant(v) => Expr::BConstant(v),
        CircuitExpression::XConstant(x) => Expr::XConstant(x),
        CircuitExpression::Input(input) => Expr::Input(input),
        CircuitExpression::Challenge(index) => Expr::Challenge(index),
        CircuitExpression::BinaryOperation(_, _, _) => Expr::Node(n),
    }
}

/// The expression that computes node `n`. Nodes in `bound` are referred to
/// by name; other operations are spelled out.
pub open spec fn expression_of(exprs: Seq<CircuitExpression>, bound: Set<usize>, n: usize) -> Expr
    decreases n,
{
    if n < exprs.len() {
        match exprs[n as int] {
            CircuitExpression::BinaryOperation(op, l, r) => {
                if !bound.contains(n) && l < n && r < n {
                    Expr::BinaryOperation(
                        op,
                        Box::new(expression_of(exprs, bound, l)),
                        Box::new(expression_of(exprs, bound, r)),
                    )
                } else {
                    Expr::Node(n)
                }
            },
            _ => binding_name(exprs[n as int], n),
        }
    } else {
        Expr::Node(n)
    }
}

/// A copy of the expression.
pub fn duplicate(e: &Expr) -> (r: Expr)
    ensures
        r == *e,
    decreases *e,
{
    match e {
        Expr::BConstant(v) => Expr::BConstant(*v),
        Expr::XConstant(x) => Expr::XConstant(*x),
        Expr::Input(input) => Expr::Input(*input),
        Expr::Challenge(index) => Expr::Challenge(*index),
        Expr::Node(n) => Expr::Node(*n),
        Expr::BinaryOperation(op, l, r) => {
            Expr::BinaryOperation(*op, Box::new(duplicate(l)), Box::new(duplicate(r)))
        },
    }
}

/// The name by which node `n` is referred to.
pub fn name_of(circuits: &Multicircuit, n: usize) -> (r: Expr)
    requires
        n < circuits.expressions@.len(),
    ensures
        r == binding_name(circuits.expressions@[n as int], n),
{
    match circuits.expressions[n] {
        CircuitExpression::BConstant(v) => Expr::BConstant(v),
        CircuitExpression::XConstant(x) => Expr::XConstant(x),
        CircuitExpression::Input(input) => Expr::Input(input),
        CircuitExpression::Challenge(index) => Expr::Challenge(index),
        CircuitExpression::BinaryOperation(_, _, _) => Expr::Node(n),
    }
}

/// Builds the expression that computes node `n`, referring by name to the
/// nodes in `scope`.
pub fn evaluate_single_node(circuits: &Multicircuit, scope: &HashSet<usize>, n: usize) -> (r: Expr)
    requires
        circuits.wf(),
        n < circuits.expressions@.len(),
    ensures
        r == expression_of(circuits.expressions@, scope@, n),
    decreases n,
{
    if scope.contains(&n) {
        return name_of(circuits, n);
    }
    assert(circuits.expressions@[n as int].fits_at(n as int));
    match circuits.expressions[n] {
        CircuitExpression::BinaryOperation(op, lhs, rhs) => {
            let lhs = evaluate_single_node(circuits, scope, lhs);
            let rhs = evaluate_single_node(circuits, scope, rhs);
            Expr::BinaryOperation(op, Box::new(lhs), Box::new(rhs))
        },
        _ => name_of(circuits, n),
    }
}

} // verus!
