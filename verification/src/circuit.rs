//! The circuit model: arithmetic expressions over two rows of two tables,
//! challenges and constants, held as a directed acyclic graph.
//!
//! The graph is an arena. A node is named by its position in the arena, and a
//! binary operation names its two operands by theirs. Operands always stand
//! before the operation that uses them, so the graph cannot have a cycle.

use crate::field::ExtensionElement;
use crate::field::P;
use vstd::prelude::*;

verus! {

/// The two ways of combining circuits.
#[derive(Clone, Copy, Debug, PartialEq, Eq, Structural, Hash)]
pub enum BinOp {
    Add,
    Mul,
}

/// Which of the two adjacent rows an input is read from.
#[derive(Clone, Copy, Debug, PartialEq, Eq, Structural, Hash)]
pub enum Row {
    Current,
    Next,
}

/// Which of the two tables an input is read from. Columns of the main table
/// hold base field elements, those of the auxiliary table extension field
/// elements.
#[derive(Clone, Copy, Debug, PartialEq, Eq, Structural, Hash)]
pub enum Table {
    Main,
    Aux,
}

/// Names one cell of the two rows that a constraint can see.
#[derive(Clone, Copy, Debug, PartialEq, Eq, Structural, Hash)]
pub struct InputIndicator {
    pub row: Row,
    pub table: Table,
    pub column: usize,
}

/// What a node of the graph computes.
#[derive(Clone, Copy, Debug, PartialEq, Eq, Structural, Hash)]
pub enum CircuitExpression {
    BConstant(u64),
    XConstant(ExtensionElement),
    Input(InputIndicator),
    Challenge(usize),
    BinaryOperation(BinOp, usize, usize),
}

impl InputIndicator {
    /// The input is read from the current row.
    pub open spec fn spec_is_current_row(self) -> bool {
        self.row == Row::Current
    }

    /// The input is read from the main table.
    pub open spec fn spec_is_main_table_column(self) -> bool {
        self.table == Table::Main
    }

    /// Whether the input is read from the current row.
    #[verifier::when_used_as_spec(spec_is_current_row)]
    pub fn is_current_row(self) -> (r: bool)
        ensures
            r == self.spec_is_current_row(),
    {
        match self.row {
            Row::Current => true,
            Row::Next => false,
        }
    }

    /// Whether the input is read from the main table.
    #[verifier::when_used_as_spec(spec_is_main_table_column)]
    pub fn is_main_table_column(self) -> (r: bool)
        ensures
            r == self.spec_is_main_table_column(),
    {
        match self.table {
            Table::Main => true,
            Table::Aux => false,
        }
    }
}

impl CircuitExpression {
    /// The expression is a constant of either field.
    pub open spec fn is_constant(self) -> bool {
        self is BConstant || self is XConstant
    }

    /// Position of the left operand; 0 for a leaf.
    pub open spec fn lhs(self) -> usize {
        match self {
            CircuitExpression::BinaryOperation(_, l, _) => l,
            _ => 0,
        }
    }

    /// Position of the right operand; 0 for a leaf.
    pub open spec fn rhs(self) -> usize {
        match self {
            CircuitExpression::BinaryOperation(_, _, r) => r,
            _ => 0,
        }
    }

    /// How many of the two operand slots name node `n`.
    pub open spec fn uses(self, n: int) -> nat {
        match self {
            CircuitExpression::BinaryOperation(_, l, r) => {
                let left: nat = if l == n { 1 } else { 0 };
                let right: nat = if r == n { 1 } else { 0 };
                left + right
            },
            _ => 0,
        }
    }

    /// A node at position `n` may hold this expression: operands stand
    /// before it and constants are canonical.
    pub open spec fn fits_at(self, n: int) -> bool {
        match self {
            CircuitExpression::BConstant(v) => v < P,
            CircuitExpression::XConstant(x) => x.is_canonical(),
            CircuitExpression::BinaryOperation(_, l, r) => l < n && r < n,
            _ => true,
        }
    }

    /// The expression reads nothing from the next row.
    pub open spec fn reads_current_row_only(self) -> bool {
        match self {
            CircuitExpression::Input(i) => i.row == Row::Current,
            _ => true,
        }
    }
}

/// Every node's operands stand before it, and constants are canonical.
pub open spec fn well_formed(exprs: Seq<CircuitExpression>) -> bool {
    forall|n: int| 0 <= n < exprs.len() ==> (#[trigger] exprs[n]).fits_at(n)
}

/// No node reads from the next row.
pub open spec fn single_row(exprs: Seq<CircuitExpression>) -> bool {
    forall|n: int| 0 <= n < exprs.len() ==> (#[trigger] exprs[n]).reads_current_row_only()
}

/// The polynomial degree of node `n`: 0 for a constant, 1 for an input or a
/// challenge, the larger operand degree for a sum and the sum of the operand
/// degrees for a product.
pub open spec fn degree_of(exprs: Seq<CircuitExpression>, n: int) -> nat
    decreases n,
{
    if 0 <= n < exprs.len() {
        match exprs[n] {
            CircuitExpression::BConstant(_) => 0,
            CircuitExpression::XConstant(_) => 0,
            CircuitExpression::Input(_) => 1,
            CircuitExpression::Challenge(_) => 1,
            CircuitExpression::BinaryOperation(op, l, r) => {
                if l < n && r < n {
                    let dl = degree_of(exprs, l as int);
                    let dr = degree_of(exprs, r as int);
                    match op {
                        BinOp::Add => if dl >= dr { dl } else { dr },
                        BinOp::Mul => dl + dr,
                    }
                } else {
                    0
                }
            },
        }
    } else {
        0
    }
}

/// Whether node `n` takes its value in the base field: base field constants
/// and main table inputs do, challenges and everything of the extension field
/// do not, and an operation does iff both operands do.
pub open spec fn base_valued(exprs: Seq<CircuitExpression>, n: int) -> bool
    decreases n,
{
    if 0 <= n < exprs.len() {
        match exprs[n] {
            CircuitExpression::BConstant(_) => true,
            CircuitExpression::XConstant(_) => false,
            CircuitExpression::Input(i) => i.table == Table::Main,
            CircuitExpression::Challenge(_) => false,
            CircuitExpression::BinaryOperation(_, l, r) => {
                l < n && r < n && base_valued(exprs, l as int) && base_valued(exprs, r as int)
            },
        }
    } else {
        false
    }
}

/// The degree and the field of a node depend only on the nodes before it and
/// on the node itself.
pub proof fn lemma_attributes_of_prefix(
    a: Seq<CircuitExpression>,
    b: Seq<CircuitExpression>,
    n: int,
)
    requires
        0 <= n < a.len() <= b.len(),
        forall|i: int| 0 <= i <= n ==> a[i] == b[i],
    ensures
        degree_of(a, n) == degree_of(b, n),
        base_valued(a, n) == base_valued(b, n),
    decreases n,
{
    match a[n] {
        CircuitExpression::BinaryOperation(_, l, r) => {
            if l < n && r < n {
                lemma_attributes_of_prefix(a, b, l as int);
                lemma_attributes_of_prefix(a, b, r as int);
            }
        },
        _ => {},
    }
}

/// A batch of constraints over one shared graph: the graph's nodes, their
/// cached degrees and fields, and the constraints as an ordered list of root
/// nodes.
#[derive(Debug, PartialEq, Eq)]
pub struct Multicircuit {
    pub expressions: Vec<CircuitExpression>,
    pub degrees: Vec<u64>,
    pub base_flags: Vec<bool>,
    pub roots: Vec<usize>,
    pub dual_row: bool,
}

/// The caches hold what the graph determines.
pub open spec fn caches_agree(
    exprs: Seq<CircuitExpression>,
    degrees: Seq<u64>,
    base_flags: Seq<bool>,
) -> bool {
    &&& degrees.len() == exprs.len()
    &&& base_flags.len() == exprs.len()
    &&& forall|n: int| 0 <= n < exprs.len() ==> #[trigger] degrees[n] == degree_of(exprs, n)
    &&& forall|n: int| 0 <= n < exprs.len() ==> #[trigger] base_flags[n] == base_valued(exprs, n)
}

/// Every root names a node of the graph.
pub open spec fn roots_in_range(roots: Seq<usize>, len: int) -> bool {
    forall|i: int| 0 <= i < roots.len() ==> #[trigger] roots[i] < len
}

impl Multicircuit {
    /// The invariant of the type.
    pub open spec fn wf(&self) -> bool {
        &&& well_formed(self.expressions@)
        &&& caches_agree(self.expressions@, self.degrees@, self.base_flags@)
        &&& roots_in_range(self.roots@, self.expressions@.len() as int)
        &&& !self.dual_row ==> single_row(self.expressions@)
    }

    /// The largest degree among the constraints; 0 if there is none.
    pub open spec fn spec_degree(&self) -> nat {
        max_root_degree(self.expressions@, self.roots@)
    }

    /// A batch without nodes and without constraints.
    pub fn empty(dual_row: bool) -> (r: Multicircuit)
        ensures
            r.wf(),
            r.expressions@.len() == 0,
            r.roots@.len() == 0,
            r.dual_row == dual_row,
    {
        Multicircuit {
            expressions: Vec::new(),
            degrees: Vec::new(),
            base_flags: Vec::new(),
            roots: Vec::new(),
            dual_row,
        }
    }

    /// Decides whether the invariant of the type holds of a value that was
    /// put together by hand.
    pub fn is_well_formed(&self) -> (r: bool)
        ensures
            r == self.wf(),
    {
        let len = self.expressions.len();
        if self.degrees.len() != len || self.base_flags.len() != len {
            return false;
        }
        let ghost exprs = self.expressions@;
        let mut n: usize = 0;
        while n < len
            invariant
                n <= len,
                len == exprs.len(),
                exprs == self.expressions@,
                self.degrees@.len() == len,
                self.base_flags@.len() == len,
                forall|k: int| 0 <= k < n ==> (#[trigger] exprs[k]).fits_at(k),
                forall|k: int| 0 <= k < n ==> #[trigger] self.degrees@[k] == degree_of(exprs, k),
                forall|k: int| 0 <= k < n ==> #[trigger] self.base_flags@[k] == base_valued(exprs, k),
                !self.dual_row ==> forall|k: int|
                    0 <= k < n ==> (#[trigger] exprs[k]).reads_current_row_only(),
            decreases len - n,
        {
            let (fits, degree, base, current_row_only) = match self.expressions[n] {
                CircuitExpression::BConstant(v) => (v < P, Some(0), true, true),
                CircuitExpression::XConstant(x) => (
                    x.c0 < P && x.c1 < P && x.c2 < P,
                    Some(0),
                    false,
                    true,
                ),
                CircuitExpression::Input(input) => (
                    true,
                    Some(1),
                    input.is_main_table_column(),
                    input.is_current_row(),
                ),
                CircuitExpression::Challenge(_) => (true, Some(1), false, true),
                CircuitExpression::BinaryOperation(op, l, r) => {
                    if l < n && r < n {
                        let dl = self.degrees[l];
                        let dr = self.degrees[r];
                        let degree = match op {
                            BinOp::Add => Some(
                                if dl >= dr {
                                    dl
                                } else {
                                    dr
                                },
                            ),
                            BinOp::Mul => if dl <= u64::MAX - dr {
                                Some(dl + dr)
                            } else {
                                None
                            },
                        };
                        (true, degree, self.base_flags[l] && self.base_flags[r], true)
                    } else {
                        (false, None, false, true)
                    }
                },
            };
            if !fits {
                assert(!exprs[n as int].fits_at(n as int));
                return false;
            }
            if degree != Some(self.degrees[n]) {
                assert(self.degrees@[n as int] != degree_of(exprs, n as int));
                return false;
            }
            if base != self.base_flags[n] {
                assert(self.base_flags@[n as int] != base_valued(exprs, n as int));
                return false;
            }
            if !self.dual_row && !current_row_only {
                assert(!exprs[n as int].reads_current_row_only());
                return false;
            }
            n = n + 1;
        }
        let mut i: usize = 0;
        while i < self.roots.len()
            invariant
                i <= self.roots@.len(),
                len == self.expressions@.len(),
                forall|j: int| 0 <= j < i ==> #[trigger] self.roots@[j] < len,
            decreases self.roots@.len() - i,
        {
            if self.roots[i] >= len {
                return false;
            }
            i = i + 1;
        }
        true
    }

    /// Number of nodes in the graph.
    pub fn num_nodes(&self) -> (r: usize)
        ensures
            r == self.expressions@.len(),
    {
        self.expressions.len()
    }

    /// Number of constraints.
    pub fn num_constraints(&self) -> (r: usize)
        ensures
            r == self.roots@.len(),
    {
        self.roots.len()
    }

    /// The root node of the `i`-th constraint.
    pub fn root(&self, i: usize) -> (r: usize)
        requires
            i < self.roots@.len(),
        ensures
            r == self.roots@[i as int],
    {
        self.roots[i]
    }

    /// What node `n` computes.
    pub fn expression(&self, n: usize) -> (r: CircuitExpression)
        requires
            n < self.expressions@.len(),
        ensures
            r == self.expressions@[n as int],
    {
        self.expressions[n]
    }

    /// The degree of node `n`.
    pub fn degree(&self, n: usize) -> (r: u64)
        requires
            self.wf(),
            n < self.expressions@.len(),
        ensures
            r == degree_of(self.expressions@, n as int),
    {
        self.degrees[n]
    }

    /// Whether node `n` takes its value in the base field.
    pub fn evaluates_to_base_element(&self, n: usize) -> (r: bool)
        requires
            self.wf(),
            n < self.expressions@.len(),
        ensures
            r == base_valued(self.expressions@, n as int),
    {
        self.base_flags[n]
    }

    /// The roots of the base field constraints and those of the extension
    /// field constraints, each in the order of the constraints.
    pub fn partition_constraints(&self) -> (r: (Vec<usize>, Vec<usize>))
        requires
            self.wf(),
        ensures
            r.0@ == roots_of_field(self.expressions@, self.roots@, true),
            r.1@ == roots_of_field(self.expressions@, self.roots@, false),
    {
        let mut base: Vec<usize> = Vec::new();
        let mut ext: Vec<usize> = Vec::new();
        let mut i: usize = 0;
        while i < self.roots.len()
            invariant
                self.wf(),
                i <= self.roots@.len(),
                base@ == roots_of_field(self.expressions@, self.roots@.take(i as int), true),
                ext@ == roots_of_field(self.expressions@, self.roots@.take(i as int), false),
            decreases self.roots@.len() - i,
        {
            let root = self.roots[i];
            proof {
                assert(self.roots@.take(i + 1).drop_last() == self.roots@.take(i as int));
            }
            if self.base_flags[root] {
                base.push(root);
            } else {
                ext.push(root);
            }
            i = i + 1;
        }
        proof {
            assert(self.roots@.take(i as int) == self.roots@);
        }
        (base, ext)
    }

    /// The roots in the order in which constraints are evaluated: those of
    /// the base field first.
    pub fn base_constraints_first(&self) -> (r: Vec<usize>)
        requires
            self.wf(),
        ensures
            r@ == base_first(self.expressions@, self.roots@),
    {
        let (mut base, mut ext) = self.partition_constraints();
        base.append(&mut ext);
        base
    }

    /// The largest degree among the constraints; 0 if there is none.
    pub fn multicircuit_degree(&self) -> (r: u64)
        requires
            self.wf(),
        ensures
            r == self.spec_degree(),
    {
        let mut best: u64 = 0;
        let mut i: usize = 0;
        while i < self.roots.len()
            invariant
                self.wf(),
                i <= self.roots@.len(),
                best == max_root_degree(self.expressions@, self.roots@.take(i as int)),
            decreases self.roots@.len() - i,
        {
            let d = self.degrees[self.roots[i]];
            proof {
                assert(self.roots@.take(i + 1).drop_last() == self.roots@.take(i as int));
            }
            if d > best {
                best = d;
            }
            i = i + 1;
        }
        proof {
            assert(self.roots@.take(i as int) == self.roots@);
        }
        best
    }
}

/// The roots whose nodes take their value in the base field (`base` true) or
/// in the extension field (`base` false), in the order of `roots`.
pub open spec fn roots_of_field(exprs: Seq<CircuitExpression>, roots: Seq<usize>, base: bool)
    -> Seq<usize>
    decreases roots.len(),
{
    if roots.len() == 0 {
        Seq::<usize>::empty()
    } else if base_valued(exprs, roots.last() as int) == base {
        roots_of_field(exprs, roots.drop_last(), base).push(roots.last())
    } else {
        roots_of_field(exprs, roots.drop_last(), base)
    }
}

/// The roots in the order in which constraints are evaluated: those of the
/// base field first, then those of the extension field, each group in the
/// order of `roots`.
pub open spec fn base_first(exprs: Seq<CircuitExpression>, roots: Seq<usize>) -> Seq<usize> {
    roots_of_field(exprs, roots, true) + roots_of_field(exprs, roots, false)
}

/// Sorting roots by field keeps every root, and only roots.
pub proof fn lemma_base_first(exprs: Seq<CircuitExpression>, roots: Seq<usize>)
    ensures
        base_first(exprs, roots).len() == roots.len(),
        forall|x: usize| base_first(exprs, roots).contains(x) <==> roots.contains(x),
        forall|i: int|
            0 <= i < roots_of_field(exprs, roots, true).len() ==> base_valued(
                exprs,
                #[trigger] roots_of_field(exprs, roots, true)[i] as int,
            ),
        forall|i: int|
            0 <= i < roots_of_field(exprs, roots, false).len() ==> !base_valued(
                exprs,
                #[trigger] roots_of_field(exprs, roots, false)[i] as int,
            ),
    decreases roots.len(),
{
    let b = roots_of_field(exprs, roots, true);
    let e = roots_of_field(exprs, roots, false);
    if roots.len() > 0 {
        let init = roots.drop_last();
        let last = roots.last();
        let bi = roots_of_field(exprs, init, true);
        let ei = roots_of_field(exprs, init, false);
        lemma_base_first(exprs, init);
        assert forall|x: usize| (b + e).contains(x) <==> roots.contains(x) by {
            if (b + e).contains(x) {
                let i = choose|i: int| 0 <= i < (b + e).len() && (b + e)[i] == x;
                if x != last {
                    if i < b.len() {
                        assert(bi[i] == x);
                        assert((bi + ei)[i] == x);
                    } else {
                        assert(ei[i - b.len()] == x);
                        assert((bi + ei)[bi.len() + (i - b.len())] == x);
                    }
                    assert((bi + ei).contains(x));
                    assert(init.contains(x));
                    let j = choose|j: int| 0 <= j < init.len() && init[j] == x;
                    assert(roots[j] == x);
                } else {
                    assert(roots[roots.len() - 1] == x);
                }
            }
            if roots.contains(x) {
                let j = choose|j: int| 0 <= j < roots.len() && roots[j] == x;
                if j < init.len() {
                    assert(init[j] == x);
                    assert(init.contains(x));
                    assert((bi + ei).contains(x));
                    let i = choose|i: int| 0 <= i < (bi + ei).len() && (bi + ei)[i] == x;
                    if i < bi.len() {
                        assert(b[i] == x);
                        assert((b + e)[i] == x);
                    } else {
                        assert(e[i - bi.len()] == x);
                        assert((b + e)[b.len() + (i - bi.len())] == x);
                    }
                } else {
                    if base_valued(exprs, last as int) {
                        assert(b[b.len() - 1] == x);
                        assert((b + e)[b.len() - 1] == x);
                    } else {
                        assert(e[e.len() - 1] == x);
                        assert((b + e)[b.len() + e.len() - 1] == x);
                    }
                }
            }
        }
    } else {
        assert forall|x: usize| (b + e).contains(x) <==> roots.contains(x) by {}
    }
}

/// The largest degree among the nodes that `roots` names; 0 for no roots.
pub open spec fn max_root_degree(exprs: Seq<CircuitExpression>, roots: Seq<usize>) -> nat
    decreases roots.len(),
{
    if roots.len() == 0 {
        0
    } else {
        let rest = max_root_degree(exprs, roots.drop_last());
        let d = degree_of(exprs, roots.last() as int);
        if d > rest {
            d
        } else {
            rest
        }
    }
}

/// `max_root_degree` bounds every root's degree, and some root attains it.
pub proof fn lemma_max_root_degree(exprs: Seq<CircuitExpression>, roots: Seq<usize>)
    ensures
        forall|i: int|
            0 <= i < roots.len() ==> degree_of(exprs, #[trigger] roots[i] as int)
                <= max_root_degree(exprs, roots),
        roots.len() > 0 ==> exists|i: int|
            0 <= i < roots.len() && degree_of(exprs, #[trigger] roots[i] as int)
                == max_root_degree(exprs, roots),
        roots.len() == 0 ==> max_root_degree(exprs, roots) == 0,
    decreases roots.len(),
{
    if roots.len() > 0 {
        let init = roots.drop_last();
        lemma_max_root_degree(exprs, init);
        assert forall|i: int| 0 <= i < roots.len() implies degree_of(
            exprs,
            #[trigger] roots[i] as int,
        ) <= max_root_degree(exprs, roots) by {
            if i < init.len() {
                assert(init[i] == roots[i]);
            }
        }
        let d = degree_of(exprs, roots.last() as int);
        if d > max_root_degree(exprs, init) || init.len() == 0 {
            assert(degree_of(exprs, roots[roots.len() - 1] as int) == max_root_degree(
                exprs,
                roots,
            ));
        } else {
            let i = choose|i: int|
                0 <= i < init.len() && degree_of(exprs, #[trigger] init[i] as int)
                    == max_root_degree(exprs, init);
            assert(roots[i] == init[i]);
        }
    }
}

} // verus!
