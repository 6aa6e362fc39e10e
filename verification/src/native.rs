//! The native backend: for each bucket, the bindings of the shared nodes and
//! the expressions of the constraints, as trees that a printer can render in
//! the syntax of a host language, and the degree of each constraint.

use crate::circuit::base_first;
use crate::circuit::degree_of;
use crate::circuit::lemma_base_first;
use crate::circuit::roots_of_field;
use crate::circuit::CircuitExpression;
use crate::circuit::Multicircuit;
use crate::constraints::Constraints;
use crate::expression::evaluate_single_node;
use crate::expression::expression_of;
use crate::expression::Expr;
use crate::sharing::countable;
use crate::sharing::is_countable;
use crate::sharing::lemma_no_roots_no_sharing;
use crate::sharing::reference_counts_of;
use crate::sharing::relevant_counts_of;
use crate::sharing::shared_nodes;
use crate::sharing::shared_nodes_in_order;
use std::collections::HashSet;
use vstd::prelude::*;
use vstd::std_specs::hash::group_hash_axioms;

verus! {

broadcast use group_hash_axioms;

/// Binds the value of an expression to the name of a node.
#[derive(Debug, PartialEq, Eq)]
pub struct Binding {
    pub node: usize,
    pub value: Expr,
}

/// The evaluation of one bucket: the bindings of the shared nodes in the
/// order in which they are made, the expressions of the base field
/// constraints and of the extension field constraints, and the degrees of
/// the constraints, base field constraints first. The constraints evaluate
/// to the base field expressions followed by the extension field
/// expressions, so values and degrees line up.
#[derive(Debug, PartialEq, Eq)]
pub struct BucketCode {
    pub shared_declarations: Vec<Binding>,
    pub base_constraints: Vec<Expr>,
    pub ext_constraints: Vec<Expr>,
    pub degrees: Vec<u64>,
}

/// The evaluation of all four buckets.
#[derive(Debug, PartialEq, Eq)]
pub struct RustCode {
    pub init: BucketCode,
    pub cons: BucketCode,
    pub tran: BucketCode,
    pub term: BucketCode,
}

/// The bindings of `nodes`, made in turn: each value refers by name to the
/// nodes bound before it and spells out everything else.
pub open spec fn declarations_of(exprs: Seq<CircuitExpression>, nodes: Seq<usize>) -> Seq<Binding> {
    Seq::new(
        nodes.len(),
        |i: int|
            (Binding {
                node: nodes[i],
                value: expression_of(exprs, nodes.take(i).to_set(), nodes[i]),
            }),
    )
}

/// The expressions of `roots`, referring by name to the nodes in `bound`.
pub open spec fn expressions_of(exprs: Seq<CircuitExpression>, bound: Set<usize>, roots: Seq<usize>)
    -> Seq<Expr> {
    Seq::new(roots.len(), |i: int| expression_of(exprs, bound, roots[i]))
}

/// The degrees of `roots`.
pub open spec fn degrees_of(exprs: Seq<CircuitExpression>, roots: Seq<usize>) -> Seq<u64> {
    Seq::new(roots.len(), |i: int| degree_of(exprs, roots[i] as int) as u64)
}

/// What the native backend emits for a bucket.
pub open spec fn is_bucket_code(exprs: Seq<CircuitExpression>, roots: Seq<usize>, code: BucketCode)
    -> bool {
    let shared = shared_nodes(exprs, roots);
    &&& code.shared_declarations@ == declarations_of(exprs, shared)
    &&& code.base_constraints@ == expressions_of(
        exprs,
        shared.to_set(),
        roots_of_field(exprs, roots, true),
    )
    &&& code.ext_constraints@ == expressions_of(
        exprs,
        shared.to_set(),
        roots_of_field(exprs, roots, false),
    )
    &&& code.degrees@ == degrees_of(exprs, base_first(exprs, roots))
}

/// The native backend is deterministic: compiling the same bucket twice
/// gives the same bindings, the same expressions and the same degrees.
pub proof fn lemma_native_code_is_deterministic(
    exprs: Seq<CircuitExpression>,
    roots: Seq<usize>,
    first: BucketCode,
    second: BucketCode,
)
    requires
        is_bucket_code(exprs, roots, first),
        is_bucket_code(exprs, roots, second),
    ensures
        first.shared_declarations@ == second.shared_declarations@,
        first.base_constraints@ == second.base_constraints@,
        first.ext_constraints@ == second.ext_constraints@,
        first.degrees@ == second.degrees@,
{
}

/// The reference counts of all four buckets fit the machine word.
pub open spec fn all_countable(constraints: &Constraints) -> bool {
    &&& countable(constraints.init.expressions@, constraints.init.roots@)
    &&& countable(constraints.cons.expressions@, constraints.cons.roots@)
    &&& countable(constraints.tran.expressions@, constraints.tran.roots@)
    &&& countable(constraints.term.expressions@, constraints.term.roots@)
}

/// The state of one run of the native backend over one bucket.
pub struct RustBackend {
    /// The nodes that have been bound to a name.
    pub scope: HashSet<usize>,
}

impl RustBackend {
    /// A backend with nothing bound.
    pub fn new() -> (r: Self)
        ensures
            r.scope@ == Set::<usize>::empty(),
    {
        RustBackend { scope: HashSet::new() }
    }

    /// The bindings of the shared nodes, in the order of the sharing
    /// analysis. Takes every node it binds into scope.
    pub fn declare_shared_nodes(&mut self, circuits: &Multicircuit) -> (r: Vec<Binding>)
        requires
            circuits.wf(),
            countable(circuits.expressions@, circuits.roots@),
            old(self).scope@ == Set::<usize>::empty(),
        ensures
            r@ == declarations_of(
                circuits.expressions@,
                shared_nodes(circuits.expressions@, circuits.roots@),
            ),
            final(self).scope@ == shared_nodes(circuits.expressions@, circuits.roots@).to_set(),
    {
        let shared = shared_nodes_in_order(circuits);
        let ghost exprs = circuits.expressions@;
        let mut declarations: Vec<Binding> = Vec::new();
        let mut i: usize = 0;
        proof {
            assert(shared@.take(0).to_set() =~= Set::<usize>::empty());
            crate::sharing::lemma_shared_nodes_in_range(exprs, circuits.roots@);
        }
        while i < shared.len()
            invariant
                circuits.wf(),
                exprs == circuits.expressions@,
                i <= shared@.len(),
                forall|j: int| 0 <= j < shared@.len() ==> #[trigger] shared@[j] < exprs.len(),
                self.scope@ == shared@.take(i as int).to_set(),
                declarations@ == declarations_of(exprs, shared@).take(i as int),
            decreases shared@.len() - i,
        {
            let node = shared[i];
            let value = evaluate_single_node(circuits, &self.scope, node);
            declarations.push(Binding { node, value });
            self.scope.insert(node);
            proof {
                assert(shared@.take(i + 1) =~= shared@.take(i as int).push(node));
                assert(shared@.take(i + 1).to_set() =~= shared@.take(i as int).to_set().insert(node))
                    by {
                    let a = shared@.take(i as int);
                    let b = shared@.take(i + 1);
                    assert forall|x: usize| b.to_set().contains(x) <==> a.to_set().insert(
                        node,
                    ).contains(x) by {
                        if b.contains(x) {
                            let j = choose|j: int| 0 <= j < b.len() && b[j] == x;
                            if j < a.len() {
                                assert(a[j] == x);
                                assert(a.contains(x));
                            }
                        }
                        if a.contains(x) {
                            let j = choose|j: int| 0 <= j < a.len() && a[j] == x;
                            assert(b[j] == x);
                        }
                        if x == node {
                            assert(b[i as int] == x);
                        }
                    }
                }
                assert(declarations@ =~= declarations_of(exprs, shared@).take(i + 1));
            }
            i = i + 1;
        }
        proof {
            assert(shared@.take(i as int) =~= shared@);
            assert(declarations_of(exprs, shared@).take(i as int) =~= declarations_of(
                exprs,
                shared@,
            ));
        }
        declarations
    }

    /// The expressions of `roots`, referring by name to the nodes in scope.
    pub fn tokenize_constraints(&self, circuits: &Multicircuit, roots: &Vec<usize>) -> (r: Vec<Expr>)
        requires
            circuits.wf(),
            forall|i: int| 0 <= i < roots@.len() ==> #[trigger] roots@[i] < circuits.expressions@.len(),
        ensures
            r@ == expressions_of(circuits.expressions@, self.scope@, roots@),
    {
        let mut out: Vec<Expr> = Vec::new();
        let mut i: usize = 0;
        while i < roots.len()
            invariant
                circuits.wf(),
                forall|i: int|
                    0 <= i < roots@.len() ==> #[trigger] roots@[i] < circuits.expressions@.len(),
                i <= roots@.len(),
                out@ == expressions_of(circuits.expressions@, self.scope@, roots@).take(i as int),
            decreases roots@.len() - i,
        {
            out.push(evaluate_single_node(circuits, &self.scope, roots[i]));
            assert(out@ =~= expressions_of(circuits.expressions@, self.scope@, roots@).take(i + 1));
            i = i + 1;
        }
        assert(expressions_of(circuits.expressions@, self.scope@, roots@).take(i as int)
            =~= expressions_of(circuits.expressions@, self.scope@, roots@));
        out
    }

    /// The evaluation of one bucket. A bucket without constraints gives
    /// four empty lists.
    pub fn tokenize_circuits(circuits: &Multicircuit) -> (r: BucketCode)
        requires
            circuits.wf(),
            countable(circuits.expressions@, circuits.roots@),
        ensures
            is_bucket_code(circuits.expressions@, circuits.roots@, r),
            circuits.roots@.len() == 0 ==> {
                &&& r.shared_declarations@.len() == 0
                &&& r.base_constraints@.len() == 0
                &&& r.ext_constraints@.len() == 0
                &&& r.degrees@.len() == 0
            },
    {
        let ghost exprs = circuits.expressions@;
        let ghost roots = circuits.roots@;
        let mut backend = Self::new();
        let shared_declarations = backend.declare_shared_nodes(circuits);
        let (base, ext) = circuits.partition_constraints();
        proof {
            lemma_base_first(exprs, roots);
            let b = roots_of_field(exprs, roots, true);
            let e = roots_of_field(exprs, roots, false);
            let all = base_first(exprs, roots);
            assert forall|i: int| 0 <= i < b.len() implies #[trigger] b[i] < exprs.len() by {
                assert(all[i] == b[i]);
                assert(all.contains(b[i]));
                assert(roots.contains(b[i]));
                let j = choose|j: int| 0 <= j < roots.len() && roots[j] == b[i];
                assert(roots[j] < exprs.len());
            }
            assert forall|i: int| 0 <= i < e.len() implies #[trigger] e[i] < exprs.len() by {
                assert(all[b.len() + i] == e[i]);
                assert(all.contains(e[i]));
                assert(roots.contains(e[i]));
                let j = choose|j: int| 0 <= j < roots.len() && roots[j] == e[i];
                assert(roots[j] < exprs.len());
            }
            if roots.len() == 0 {
                lemma_no_roots_no_sharing(
                    exprs,
                    reference_counts_of(exprs, roots),
                    Set::<usize>::empty(),
                    relevant_counts_of(reference_counts_of(exprs, roots)),
                );
                assert(roots =~= Seq::<usize>::empty());
            }
        }
        let base_constraints = backend.tokenize_constraints(circuits, &base);
        let ext_constraints = backend.tokenize_constraints(circuits, &ext);
        let mut degrees: Vec<u64> = Vec::new();
        let mut i: usize = 0;
        while i < base.len()
            invariant
                circuits.wf(),
                exprs == circuits.expressions@,
                forall|i: int| 0 <= i < base@.len() ==> #[trigger] base@[i] < exprs.len(),
                i <= base@.len(),
                degrees@ == degrees_of(exprs, base@).take(i as int),
            decreases base@.len() - i,
        {
            degrees.push(circuits.degree(base[i]));
            assert(degrees@ =~= degrees_of(exprs, base@).take(i + 1));
            i = i + 1;
        }
        let mut i: usize = 0;
        while i < ext.len()
            invariant
                circuits.wf(),
                exprs == circuits.expressions@,
                forall|i: int| 0 <= i < ext@.len() ==> #[trigger] ext@[i] < exprs.len(),
                i <= ext@.len(),
                degrees@ == degrees_of(exprs, base@) + degrees_of(exprs, ext@).take(i as int),
            decreases ext@.len() - i,
        {
            degrees.push(circuits.degree(ext[i]));
            assert(degrees@ =~= degrees_of(exprs, base@) + degrees_of(exprs, ext@).take(i + 1));
            i = i + 1;
        }
        assert(degrees@ =~= degrees_of(exprs, base@ + ext@));
        BucketCode { shared_declarations, base_constraints, ext_constraints, degrees }
    }

    /// Decides whether the reference counts of all four buckets fit the
    /// machine word.
    pub fn can_compile_all(constraints: &Constraints) -> (r: bool)
        ensures
            r == all_countable(constraints),
    {
        is_countable(&constraints.init) && is_countable(&constraints.cons) && is_countable(
            &constraints.tran,
        ) && is_countable(&constraints.term)
    }

    /// The evaluation of all four buckets.
    pub fn constraint_evaluation_code(constraints: &Constraints) -> (r: RustCode)
        requires
            constraints.wf(),
            all_countable(constraints),
        ensures
            is_bucket_code(constraints.init.expressions@, constraints.init.roots@, r.init),
            is_bucket_code(constraints.cons.expressions@, constraints.cons.roots@, r.cons),
            is_bucket_code(constraints.tran.expressions@, constraints.tran.roots@, r.tran),
            is_bucket_code(constraints.term.expressions@, constraints.term.roots@, r.term),
    {
        RustCode {
            init: Self::tokenize_circuits(&constraints.init),
            cons: Self::tokenize_circuits(&constraints.cons),
            tran: Self::tokenize_circuits(&constraints.tran),
            term: Self::tokenize_circuits(&constraints.term),
        }
    }
}

} // verus!
