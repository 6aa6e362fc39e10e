//! The constraints of a proof system, sorted into the four buckets by the
//! rows they speak of, and degree lowering over all four.

use crate::circuit::degree_of;
use crate::circuit::lemma_max_root_degree;
use crate::circuit::max_root_degree;
use crate::circuit::Multicircuit;
use crate::expression::duplicate;
use crate::expression::Expr;
use crate::lowering::advanced;
use crate::lowering::lowered_batch;
use crate::lowering::rules_hold;
use crate::lowering::LoweringState;
use crate::lowering::DegreeLoweringInfo;
use crate::lowering::Substitution;
use vstd::prelude::*;

verus! {

/// All constraints: those on the first row, on every row, on every pair of
/// adjacent rows, and on the last row. Each bucket has a graph of its own.
#[derive(Debug, PartialEq, Eq)]
pub struct Constraints {
    pub init: Multicircuit,
    pub cons: Multicircuit,
    pub tran: Multicircuit,
    pub term: Multicircuit,
}

/// The substitution rules made for the columns of one table, by bucket.
#[derive(Debug, PartialEq, Eq)]
pub struct Substitutions {
    pub lowering_info: DegreeLoweringInfo,
    pub init: Vec<Substitution>,
    pub cons: Vec<Substitution>,
    pub tran: Vec<Substitution>,
    pub term: Vec<Substitution>,
}

/// The substitution rules made for the columns of both tables.
#[derive(Debug, PartialEq, Eq)]
pub struct AllSubstitutions {
    pub main: Substitutions,
    pub aux: Substitutions,
}

/// How one fresh column is filled: the column's index and the expression
/// whose value it takes.
#[derive(Debug, PartialEq, Eq)]
pub struct ColumnFill {
    pub column: usize,
    pub value: Expr,
}

/// How the fresh columns of one table are filled, by bucket: from the first
/// row, from each row, from each pair of adjacent rows (filling the later
/// one), from the last row.
#[derive(Debug, PartialEq, Eq)]
pub struct FillRules {
    pub init: Vec<ColumnFill>,
    pub cons: Vec<ColumnFill>,
    pub tran: Vec<ColumnFill>,
    pub term: Vec<ColumnFill>,
}

/// How the fresh columns of both tables are filled.
#[derive(Debug, PartialEq, Eq)]
pub struct DegreeLoweringTableCode {
    pub main: FillRules,
    pub aux: FillRules,
}

/// The roots of the constraints that the rules add.
pub open spec fn constraint_ids(rules: Seq<Substitution>) -> Seq<usize> {
    Seq::new(rules.len(), |i: int| rules[i].constraint)
}

/// The fill rules that the substitution rules give.
pub open spec fn fills_of(rules: Seq<Substitution>) -> Seq<ColumnFill> {
    Seq::new(
        rules.len(),
        |i: int| (ColumnFill { column: rules[i].column.column, value: rules[i].fill }),
    )
}

/// Every rule's constraint is a node of the graph.
pub open spec fn rules_in_range(rules: Seq<Substitution>, len: int) -> bool {
    forall|i: int| 0 <= i < rules.len() ==> (#[trigger] rules[i]).constraint < len
}

/// The roots of a bucket after the constraints of its rules have joined
/// them: the roots as they were, then the rules for main table columns, then
/// those for auxiliary table columns.
pub open spec fn combined_roots(
    roots: Seq<usize>,
    main: Seq<Substitution>,
    aux: Seq<Substitution>,
) -> Seq<usize> {
    roots + constraint_ids(main) + constraint_ids(aux)
}

/// The largest degree among several roots is the larger of the largest
/// degrees of the two parts.
pub proof fn lemma_max_root_degree_concat(
    exprs: Seq<crate::circuit::CircuitExpression>,
    a: Seq<usize>,
    b: Seq<usize>,
)
    ensures
        max_root_degree(exprs, a + b) == if max_root_degree(exprs, a) >= max_root_degree(exprs, b) {
            max_root_degree(exprs, a)
        } else {
            max_root_degree(exprs, b)
        },
    decreases b.len(),
{
    if b.len() == 0 {
        assert(a + b =~= a);
    } else {
        assert((a + b).drop_last() =~= a + b.drop_last());
        assert((a + b).last() == b.last());
        lemma_max_root_degree_concat(exprs, a, b.drop_last());
    }
}

/// Rules that hold have constraints of at most the target degree.
pub proof fn lemma_rules_degree(
    exprs: Seq<crate::circuit::CircuitExpression>,
    rules: Seq<Substitution>,
    dual_row: bool,
    base: bool,
    first_index: usize,
    target: u64,
)
    requires
        rules_hold(exprs, rules, dual_row, base, first_index, target),
    ensures
        max_root_degree(exprs, constraint_ids(rules)) <= target,
        rules_in_range(rules, exprs.len() as int),
{
    reveal(rules_hold);
    let ids = constraint_ids(rules);
    lemma_max_root_degree(exprs, ids);
    if ids.len() > 0 {
        let i = choose|i: int|
            0 <= i < ids.len() && degree_of(exprs, #[trigger] ids[i] as int) == max_root_degree(
                exprs,
                ids,
            );
        assert(ids[i] == rules[i].constraint);
    }
    assert forall|i: int| 0 <= i < rules.len() implies (#[trigger] rules[i]).constraint
        < exprs.len() by {}
}

/// After degree lowering, every constraint of a bucket, be it one of the
/// bucket's own or one that a substitution rule adds, has a degree of at
/// most the target.
pub proof fn lemma_bucket_bound(
    lowered: Multicircuit,
    main: Seq<Substitution>,
    aux: Seq<Substitution>,
    dual_row: bool,
    first_main: usize,
    first_aux: usize,
    target: u64,
)
    requires
        lowered.spec_degree() <= target,
        rules_hold(lowered.expressions@, main, dual_row, true, first_main, target),
        rules_hold(lowered.expressions@, aux, dual_row, false, first_aux, target),
    ensures
        max_root_degree(lowered.expressions@, combined_roots(lowered.roots@, main, aux)) <= target,
{
    let exprs = lowered.expressions@;
    lemma_rules_degree(exprs, main, dual_row, true, first_main, target);
    lemma_rules_degree(exprs, aux, dual_row, false, first_aux, target);
    lemma_max_root_degree_concat(exprs, lowered.roots@, constraint_ids(main));
    lemma_max_root_degree_concat(exprs, lowered.roots@ + constraint_ids(main), constraint_ids(aux));
}

/// Adds the constraints of the rules to the roots of a bucket.
fn combine(circuits: Multicircuit, main: &Vec<Substitution>, aux: &Vec<Substitution>) -> (r:
    Multicircuit)
    requires
        circuits.wf(),
        rules_in_range(main@, circuits.expressions@.len() as int),
        rules_in_range(aux@, circuits.expressions@.len() as int),
    ensures
        r.wf(),
        r.dual_row == circuits.dual_row,
        r.expressions@ == circuits.expressions@,
        r.roots@ == combined_roots(circuits.roots@, main@, aux@),
{
    let mut r = circuits;
    let ghost roots = r.roots@;
    let mut i: usize = 0;
    while i < main.len()
        invariant
            r.wf(),
            r.dual_row == circuits.dual_row,
            r.expressions@ == circuits.expressions@,
            roots == circuits.roots@,
            rules_in_range(main@, circuits.expressions@.len() as int),
            i <= main@.len(),
            r.roots@ == roots + constraint_ids(main@).take(i as int),
        decreases main@.len() - i,
    {
        let ghost before = r.roots@;
        r.roots.push(main[i].constraint);
        proof {
            assert(r.roots@ =~= roots + constraint_ids(main@).take(i + 1));
            assert forall|j: int| 0 <= j < r.roots@.len() implies #[trigger] r.roots@[j]
                < r.expressions@.len() by {
                if j < before.len() {
                    assert(before[j] < circuits.expressions@.len());
                } else {
                    assert(r.roots@[j] == main@[i as int].constraint);
                }
            }
        }
        i = i + 1;
    }
    assert(constraint_ids(main@).take(i as int) =~= constraint_ids(main@));
    let ghost with_main = r.roots@;
    let mut i: usize = 0;
    while i < aux.len()
        invariant
            r.wf(),
            r.dual_row == circuits.dual_row,
            r.expressions@ == circuits.expressions@,
            with_main == circuits.roots@ + constraint_ids(main@),
            rules_in_range(aux@, circuits.expressions@.len() as int),
            i <= aux@.len(),
            r.roots@ == with_main + constraint_ids(aux@).take(i as int),
        decreases aux@.len() - i,
    {
        let ghost before = r.roots@;
        r.roots.push(aux[i].constraint);
        proof {
            assert(r.roots@ =~= with_main + constraint_ids(aux@).take(i + 1));
            assert forall|j: int| 0 <= j < r.roots@.len() implies #[trigger] r.roots@[j]
                < r.expressions@.len() by {
                if j < before.len() {
                    assert(before[j] < circuits.expressions@.len());
                } else {
                    assert(r.roots@[j] == aux@[i as int].constraint);
                }
            }
        }
        i = i + 1;
    }
    assert(constraint_ids(aux@).take(i as int) =~= constraint_ids(aux@));
    r
}

/// Decides whether every rule's constraint is below `len`.
fn in_range(rules: &Vec<Substitution>, len: usize) -> (r: bool)
    ensures
        r == rules_in_range(rules@, len as int),
{
    let mut i: usize = 0;
    while i < rules.len()
        invariant
            i <= rules@.len(),
            forall|j: int| 0 <= j < i ==> (#[trigger] rules@[j]).constraint < len,
        decreases rules@.len() - i,
    {
        if rules[i].constraint >= len {
            return false;
        }
        i = i + 1;
    }
    true
}

/// The fill rules that the substitution rules give.
fn fills(rules: &Vec<Substitution>) -> (r: Vec<ColumnFill>)
    ensures
        r@ == fills_of(rules@),
{
    let mut r: Vec<ColumnFill> = Vec::new();
    let mut i: usize = 0;
    while i < rules.len()
        invariant
            i <= rules@.len(),
            r@ == fills_of(rules@).take(i as int),
        decreases rules@.len() - i,
    {
        r.push(ColumnFill { column: rules[i].column.column, value: duplicate(&rules[i].fill) });
        assert(r@ =~= fills_of(rules@).take(i + 1));
        i = i + 1;
    }
    assert(fills_of(rules@).take(i as int) =~= fills_of(rules@));
    r
}

impl Substitutions {
    /// The fill rules for the table's fresh columns.
    pub fn fill_rules(&self) -> (r: FillRules)
        ensures
            r.init@ == fills_of(self.init@),
            r.cons@ == fills_of(self.cons@),
            r.tran@ == fills_of(self.tran@),
            r.term@ == fills_of(self.term@),
    {
        FillRules {
            init: fills(&self.init),
            cons: fills(&self.cons),
            tran: fills(&self.tran),
            term: fills(&self.term),
        }
    }

    /// Number of rules, which is the number of fresh columns.
    pub open spec fn spec_len(&self) -> nat {
        self.init@.len() + self.cons@.len() + self.tran@.len() + self.term@.len()
    }
}

impl AllSubstitutions {
    /// Every rule's constraint is a node of its bucket's graph.
    pub open spec fn fits(&self, constraints: &Constraints) -> bool {
        &&& rules_in_range(self.main.init@, constraints.init.expressions@.len() as int)
        &&& rules_in_range(self.aux.init@, constraints.init.expressions@.len() as int)
        &&& rules_in_range(self.main.cons@, constraints.cons.expressions@.len() as int)
        &&& rules_in_range(self.aux.cons@, constraints.cons.expressions@.len() as int)
        &&& rules_in_range(self.main.tran@, constraints.tran.expressions@.len() as int)
        &&& rules_in_range(self.aux.tran@, constraints.tran.expressions@.len() as int)
        &&& rules_in_range(self.main.term@, constraints.term.expressions@.len() as int)
        &&& rules_in_range(self.aux.term@, constraints.term.expressions@.len() as int)
    }

    /// The rules are those of lowering `constraints` (as they are now) under
    /// `info`: in every bucket, columns are numbered on from where the bucket
    /// before stopped, and every rule has the shape `column - expression` and
    /// a degree of at most the target.
    pub open spec fn hold_for(&self, constraints: &Constraints, info: DegreeLoweringInfo) -> bool {
        let t = info.target_degree;
        let m0 = info.num_main_cols;
        let a0 = info.num_aux_cols;
        let m1 = (m0 + self.main.init@.len()) as usize;
        let a1 = (a0 + self.aux.init@.len()) as usize;
        let m2 = (m1 + self.main.cons@.len()) as usize;
        let a2 = (a1 + self.aux.cons@.len()) as usize;
        let m3 = (m2 + self.main.tran@.len()) as usize;
        let a3 = (a2 + self.aux.tran@.len()) as usize;
        &&& self.main.lowering_info == info
        &&& self.aux.lowering_info == info
        &&& m3 + self.main.term@.len() <= usize::MAX
        &&& a3 + self.aux.term@.len() <= usize::MAX
        &&& rules_hold(constraints.init.expressions@, self.main.init@, false, true, m0, t)
        &&& rules_hold(constraints.init.expressions@, self.aux.init@, false, false, a0, t)
        &&& rules_hold(constraints.cons.expressions@, self.main.cons@, false, true, m1, t)
        &&& rules_hold(constraints.cons.expressions@, self.aux.cons@, false, false, a1, t)
        &&& rules_hold(constraints.tran.expressions@, self.main.tran@, true, true, m2, t)
        &&& rules_hold(constraints.tran.expressions@, self.aux.tran@, true, false, a2, t)
        &&& rules_hold(constraints.term.expressions@, self.main.term@, false, true, m3, t)
        &&& rules_hold(constraints.term.expressions@, self.aux.term@, false, false, a3, t)
    }

    /// Decides whether every rule's constraint is a node of its bucket's
    /// graph.
    pub fn check_fits(&self, constraints: &Constraints) -> (r: bool)
        ensures
            r == self.fits(constraints),
    {
        in_range(&self.main.init, constraints.init.num_nodes()) && in_range(
            &self.aux.init,
            constraints.init.num_nodes(),
        ) && in_range(&self.main.cons, constraints.cons.num_nodes()) && in_range(
            &self.aux.cons,
            constraints.cons.num_nodes(),
        ) && in_range(&self.main.tran, constraints.tran.num_nodes()) && in_range(
            &self.aux.tran,
            constraints.tran.num_nodes(),
        ) && in_range(&self.main.term, constraints.term.num_nodes()) && in_range(
            &self.aux.term,
            constraints.term.num_nodes(),
        )
    }

    /// The rules and the graphs in `after` are exactly what lowering
    /// `before` under `info` gives: bucket by bucket in the order initial,
    /// consistency, transition, terminal, each bucket lowered under the
    /// column counts that the buckets before it leave.
    pub open spec fn is_lowering_of(
        &self,
        before: Constraints,
        after: Constraints,
        info: DegreeLoweringInfo,
    ) -> bool {
        let init = lowered_batch(before.init, info);
        let info_cons = advanced(info, init);
        let cons = lowered_batch(before.cons, info_cons);
        let info_tran = advanced(info_cons, cons);
        let tran = lowered_batch(before.tran, info_tran);
        let info_term = advanced(info_tran, tran);
        let term = lowered_batch(before.term, info_term);
        &&& init == (LoweringState {
            exprs: after.init.expressions@,
            main: self.main.init@,
            aux: self.aux.init@,
        })
        &&& cons == (LoweringState {
            exprs: after.cons.expressions@,
            main: self.main.cons@,
            aux: self.aux.cons@,
        })
        &&& tran == (LoweringState {
            exprs: after.tran.expressions@,
            main: self.main.tran@,
            aux: self.aux.tran@,
        })
        &&& term == (LoweringState {
            exprs: after.term.expressions@,
            main: self.main.term@,
            aux: self.aux.term@,
        })
    }

    /// How the fresh columns of both tables are filled.
    pub fn generate_degree_lowering_table_code(&self) -> (r: DegreeLoweringTableCode)
        ensures
            r.main.init@ == fills_of(self.main.init@),
            r.main.cons@ == fills_of(self.main.cons@),
            r.main.tran@ == fills_of(self.main.tran@),
            r.main.term@ == fills_of(self.main.term@),
            r.aux.init@ == fills_of(self.aux.init@),
            r.aux.cons@ == fills_of(self.aux.cons@),
            r.aux.tran@ == fills_of(self.aux.tran@),
            r.aux.term@ == fills_of(self.aux.term@),
    {
        DegreeLoweringTableCode { main: self.main.fill_rules(), aux: self.aux.fill_rules() }
    }
}

impl Constraints {
    /// The invariant of the type: every bucket is well-formed, and only the
    /// transition bucket sees the next row.
    pub open spec fn wf(&self) -> bool {
        &&& self.init.wf()
        &&& self.cons.wf()
        &&& self.tran.wf()
        &&& self.term.wf()
        &&& !self.init.dual_row
        &&& !self.cons.dual_row
        &&& self.tran.dual_row
        &&& !self.term.dual_row
    }

    /// Total number of constraints.
    pub open spec fn spec_len(&self) -> nat {
        (self.init.roots@.len() + self.cons.roots@.len() + self.tran.roots@.len()
            + self.term.roots@.len()) as nat
    }

    /// The largest degree among all constraints.
    pub open spec fn spec_degree(&self) -> nat {
        let a = self.init.spec_degree();
        let b = self.cons.spec_degree();
        let c = self.tran.spec_degree();
        let d = self.term.spec_degree();
        let ab = if a >= b {
            a
        } else {
            b
        };
        let cd = if c >= d {
            c
        } else {
            d
        };
        if ab >= cd {
            ab
        } else {
            cd
        }
    }

    /// The sum over all buckets of the excess over `target`. Lowering makes
    /// at most this many substitutions.
    pub open spec fn spec_excess(&self, target: u64) -> nat {
        self.init.spec_excess(target) + self.cons.spec_excess(target) + self.tran.spec_excess(
            target,
        ) + self.term.spec_excess(target)
    }

    /// Decides whether the invariant of the type holds of a value that was
    /// put together by hand.
    pub fn is_well_formed(&self) -> (r: bool)
        ensures
            r == self.wf(),
    {
        !self.init.dual_row && !self.cons.dual_row && self.tran.dual_row && !self.term.dual_row
            && self.init.is_well_formed() && self.cons.is_well_formed()
            && self.tran.is_well_formed() && self.term.is_well_formed()
    }

    /// No constraints at all.
    pub fn empty() -> (r: Constraints)
        ensures
            r.wf(),
            r.spec_len() == 0,
    {
        Constraints {
            init: Multicircuit::empty(false),
            cons: Multicircuit::empty(false),
            tran: Multicircuit::empty(true),
            term: Multicircuit::empty(false),
        }
    }

    /// The four buckets as one value, if each sees the rows it may see.
    pub fn new(init: Multicircuit, cons: Multicircuit, tran: Multicircuit, term: Multicircuit) -> (r:
        Option<Constraints>)
        requires
            init.wf(),
            cons.wf(),
            tran.wf(),
            term.wf(),
        ensures
            r.is_some() == (!init.dual_row && !cons.dual_row && tran.dual_row && !term.dual_row),
            r.is_some() ==> {
                &&& r.unwrap().wf()
                &&& r.unwrap().init == init
                &&& r.unwrap().cons == cons
                &&& r.unwrap().tran == tran
                &&& r.unwrap().term == term
            },
    {
        if !init.dual_row && !cons.dual_row && tran.dual_row && !term.dual_row {
            Some(Constraints { init, cons, tran, term })
        } else {
            None
        }
    }

    /// The largest degree among all constraints.
    pub fn degree(&self) -> (r: u64)
        requires
            self.wf(),
        ensures
            r == self.spec_degree(),
    {
        let a = self.init.multicircuit_degree();
        let b = self.cons.multicircuit_degree();
        let c = self.tran.multicircuit_degree();
        let d = self.term.multicircuit_degree();
        let ab = if a >= b {
            a
        } else {
            b
        };
        let cd = if c >= d {
            c
        } else {
            d
        };
        if ab >= cd {
            ab
        } else {
            cd
        }
    }

    /// Computes the excess over `target`, unless it is too large for the
    /// machine word.
    pub fn excess_degree(&self, target: u64) -> (r: Option<usize>)
        requires
            self.wf(),
        ensures
            match r {
                Some(e) => e == self.spec_excess(target),
                None => self.spec_excess(target) > usize::MAX,
            },
    {
        let init = self.init.excess_degree(target);
        let cons = self.cons.excess_degree(target);
        let tran = self.tran.excess_degree(target);
        let term = self.term.excess_degree(target);
        match (init, cons, tran, term) {
            (Some(a), Some(b), Some(c), Some(d)) => {
                if a > usize::MAX - b {
                    return None;
                }
                let ab = a + b;
                if ab > usize::MAX - c {
                    return None;
                }
                let abc = ab + c;
                if abc > usize::MAX - d {
                    return None;
                }
                Some(abc + d)
            },
            _ => None,
        }
    }

    /// Whether lowering under `info` can number its fresh columns: the
    /// target is above 1, and neither column count can leave the machine
    /// word.
    pub open spec fn can_lower(&self, info: DegreeLoweringInfo) -> bool {
        &&& info.target_degree > 1
        &&& info.num_main_cols + self.spec_excess(info.target_degree) <= usize::MAX
        &&& info.num_aux_cols + self.spec_excess(info.target_degree) <= usize::MAX
    }

    /// Decides `can_lower`.
    pub fn check_can_lower(&self, info: DegreeLoweringInfo) -> (r: bool)
        requires
            self.wf(),
        ensures
            r == self.can_lower(info),
    {
        if info.target_degree <= 1 {
            return false;
        }
        match self.excess_degree(info.target_degree) {
            Some(e) => info.num_main_cols <= usize::MAX - e && info.num_aux_cols <= usize::MAX - e,
            None => false,
        }
    }

    /// Lowers the degree of every constraint in every bucket to at most the
    /// target. Buckets are taken in the order initial, consistency,
    /// transition, terminal, and the fresh columns are numbered through in
    /// that order, from the given column counts on.
    pub fn lower_to_target_degree_through_substitutions(&mut self, info: DegreeLoweringInfo) -> (r:
        AllSubstitutions)
        requires
            old(self).wf(),
            old(self).can_lower(info),
        ensures
            final(self).wf(),
            final(self).init.roots@ == old(self).init.roots@,
            final(self).cons.roots@ == old(self).cons.roots@,
            final(self).tran.roots@ == old(self).tran.roots@,
            final(self).term.roots@ == old(self).term.roots@,
            final(self).spec_degree() <= info.target_degree,
            r.hold_for(final(self), info),
            r.fits(final(self)),
            r.main.spec_len() + r.aux.spec_len() <= old(self).spec_excess(info.target_degree),
            r.is_lowering_of(*old(self), *final(self), info),
            old(self).spec_degree() <= info.target_degree ==> {
                &&& r.main.spec_len() + r.aux.spec_len() == 0
                &&& final(self).init.expressions@ == old(self).init.expressions@
                &&& final(self).cons.expressions@ == old(self).cons.expressions@
                &&& final(self).tran.expressions@ == old(self).tran.expressions@
                &&& final(self).term.expressions@ == old(self).term.expressions@
            },
    {
        let ghost t = info.target_degree;
        let mut running = info;
        let (init_main, init_aux) = self.init.lower_to_degree(running);
        running.num_main_cols = running.num_main_cols + init_main.len();
        running.num_aux_cols = running.num_aux_cols + init_aux.len();
        let (cons_main, cons_aux) = self.cons.lower_to_degree(running);
        running.num_main_cols = running.num_main_cols + cons_main.len();
        running.num_aux_cols = running.num_aux_cols + cons_aux.len();
        let (tran_main, tran_aux) = self.tran.lower_to_degree(running);
        running.num_main_cols = running.num_main_cols + tran_main.len();
        running.num_aux_cols = running.num_aux_cols + tran_aux.len();
        let (term_main, term_aux) = self.term.lower_to_degree(running);
        proof {
            lemma_rules_degree(
                self.init.expressions@,
                init_main@,
                false,
                true,
                info.num_main_cols,
                t,
            );
            lemma_rules_degree(
                self.init.expressions@,
                init_aux@,
                false,
                false,
                info.num_aux_cols,
                t,
            );
            lemma_rules_degree(
                self.cons.expressions@,
                cons_main@,
                false,
                true,
                (info.num_main_cols + init_main@.len()) as usize,
                t,
            );
            lemma_rules_degree(
                self.cons.expressions@,
                cons_aux@,
                false,
                false,
                (info.num_aux_cols + init_aux@.len()) as usize,
                t,
            );
            lemma_rules_degree(
                self.tran.expressions@,
                tran_main@,
                true,
                true,
                (info.num_main_cols + init_main@.len() + cons_main@.len()) as usize,
                t,
            );
            lemma_rules_degree(
                self.tran.expressions@,
                tran_aux@,
                true,
                false,
                (info.num_aux_cols + init_aux@.len() + cons_aux@.len()) as usize,
                t,
            );
            lemma_rules_degree(
                self.term.expressions@,
                term_main@,
                false,
                true,
                (info.num_main_cols + init_main@.len() + cons_main@.len() + tran_main@.len()) as usize,
                t,
            );
            lemma_rules_degree(
                self.term.expressions@,
                term_aux@,
                false,
                false,
                (info.num_aux_cols + init_aux@.len() + cons_aux@.len() + tran_aux@.len()) as usize,
                t,
            );
        }
        AllSubstitutions {
            main: Substitutions {
                lowering_info: info,
                init: init_main,
                cons: cons_main,
                tran: tran_main,
                term: term_main,
            },
            aux: Substitutions {
                lowering_info: info,
                init: init_aux,
                cons: cons_aux,
                tran: tran_aux,
                term: term_aux,
            },
        }
    }

    /// Appends the constraints of the substitution rules to their buckets:
    /// after a bucket's own constraints come those of its rules for main
    /// table columns, then those of its rules for auxiliary table columns.
    pub fn combine_with_substitution_induced_constraints(
        self,
        substitutions: AllSubstitutions,
    ) -> (r: Constraints)
        requires
            self.wf(),
            substitutions.fits(&self),
        ensures
            r.wf(),
            r.init.expressions@ == self.init.expressions@,
            r.cons.expressions@ == self.cons.expressions@,
            r.tran.expressions@ == self.tran.expressions@,
            r.term.expressions@ == self.term.expressions@,
            r.init.roots@ == combined_roots(
                self.init.roots@,
                substitutions.main.init@,
                substitutions.aux.init@,
            ),
            r.cons.roots@ == combined_roots(
                self.cons.roots@,
                substitutions.main.cons@,
                substitutions.aux.cons@,
            ),
            r.tran.roots@ == combined_roots(
                self.tran.roots@,
                substitutions.main.tran@,
                substitutions.aux.tran@,
            ),
            r.term.roots@ == combined_roots(
                self.term.roots@,
                substitutions.main.term@,
                substitutions.aux.term@,
            ),
    {
        Constraints {
            init: combine(self.init, &substitutions.main.init, &substitutions.aux.init),
            cons: combine(self.cons, &substitutions.main.cons, &substitutions.aux.cons),
            tran: combine(self.tran, &substitutions.main.tran, &substitutions.aux.tran),
            term: combine(self.term, &substitutions.main.term, &substitutions.aux.term),
        }
    }
}

/// Degree bound: once the constraints have been lowered to a target degree
/// and the constraints of the substitution rules have joined them, every
/// constraint in every bucket has a degree of at most the target.
pub proof fn lemma_degree_bound(
    lowered: Constraints,
    substitutions: AllSubstitutions,
    info: DegreeLoweringInfo,
    combined: Constraints,
)
    requires
        lowered.spec_degree() <= info.target_degree,
        substitutions.hold_for(&lowered, info),
        combined.init.expressions@ == lowered.init.expressions@,
        combined.cons.expressions@ == lowered.cons.expressions@,
        combined.tran.expressions@ == lowered.tran.expressions@,
        combined.term.expressions@ == lowered.term.expressions@,
        combined.init.roots@ == combined_roots(
            lowered.init.roots@,
            substitutions.main.init@,
            substitutions.aux.init@,
        ),
        combined.cons.roots@ == combined_roots(
            lowered.cons.roots@,
            substitutions.main.cons@,
            substitutions.aux.cons@,
        ),
        combined.tran.roots@ == combined_roots(
            lowered.tran.roots@,
            substitutions.main.tran@,
            substitutions.aux.tran@,
        ),
        combined.term.roots@ == combined_roots(
            lowered.term.roots@,
            substitutions.main.term@,
            substitutions.aux.term@,
        ),
    ensures
        combined.spec_degree() <= info.target_degree,
{
    let t = info.target_degree;
    let m0 = info.num_main_cols;
    let a0 = info.num_aux_cols;
    let m1 = (m0 + substitutions.main.init@.len()) as usize;
    let a1 = (a0 + substitutions.aux.init@.len()) as usize;
    let m2 = (m1 + substitutions.main.cons@.len()) as usize;
    let a2 = (a1 + substitutions.aux.cons@.len()) as usize;
    let m3 = (m2 + substitutions.main.tran@.len()) as usize;
    let a3 = (a2 + substitutions.aux.tran@.len()) as usize;
    lemma_bucket_bound(
        lowered.init,
        substitutions.main.init@,
        substitutions.aux.init@,
        false,
        m0,
        a0,
        t,
    );
    lemma_bucket_bound(
        lowered.cons,
        substitutions.main.cons@,
        substitutions.aux.cons@,
        false,
        m1,
        a1,
        t,
    );
    lemma_bucket_bound(
        lowered.tran,
        substitutions.main.tran@,
        substitutions.aux.tran@,
        true,
        m2,
        a2,
        t,
    );
    lemma_bucket_bound(
        lowered.term,
        substitutions.main.term@,
        substitutions.aux.term@,
        false,
        m3,
        a3,
        t,
    );
}

/// Degree lowering is deterministic: lowering the same constraints under
/// the same target and column counts gives the same graphs and the same
/// rules, and so the same number of fresh columns for either table.
pub proof fn lemma_lowering_is_deterministic(
    before: Constraints,
    info: DegreeLoweringInfo,
    first_after: Constraints,
    first_rules: AllSubstitutions,
    second_after: Constraints,
    second_rules: AllSubstitutions,
)
    requires
        first_rules.is_lowering_of(before, first_after, info),
        second_rules.is_lowering_of(before, second_after, info),
    ensures
        first_after.init.expressions@ == second_after.init.expressions@,
        first_after.cons.expressions@ == second_after.cons.expressions@,
        first_after.tran.expressions@ == second_after.tran.expressions@,
        first_after.term.expressions@ == second_after.term.expressions@,
        first_rules.main.init@ == second_rules.main.init@,
        first_rules.main.cons@ == second_rules.main.cons@,
        first_rules.main.tran@ == second_rules.main.tran@,
        first_rules.main.term@ == second_rules.main.term@,
        first_rules.aux.init@ == second_rules.aux.init@,
        first_rules.aux.cons@ == second_rules.aux.cons@,
        first_rules.aux.tran@ == second_rules.aux.tran@,
        first_rules.aux.term@ == second_rules.aux.term@,
        first_rules.main.spec_len() == second_rules.main.spec_len(),
        first_rules.aux.spec_len() == second_rules.aux.spec_len(),
{
}

} // verus!
