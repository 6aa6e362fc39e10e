//! Which nodes the sharing analysis keeps, said without walking the graph:
//! exactly the operations that are referred to at least twice, each once,
//! and each after every shared operation below it.

use crate::circuit::well_formed;
use crate::circuit::CircuitExpression;
use crate::sharing::countable;
use crate::sharing::is_relevant_counts;
use crate::sharing::lemma_relevant_counts_exist;
use crate::sharing::lemma_shared_nodes;
use crate::sharing::lemma_to_set_concat;
use crate::sharing::operand_uses;
use crate::sharing::picked_below;
use crate::sharing::picked_for_count;
use crate::sharing::picked_for_counts;
use crate::sharing::reference_count;
use crate::sharing::reference_counts_of;
use crate::sharing::relevant_counts_of;
use crate::sharing::root_uses;
use crate::sharing::shared_nodes;
use crate::sharing::stored_below;
use crate::sharing::strictly_descending;
use vstd::prelude::*;

verus! {

/// The walk for the count `k` that starts at `from` comes to node `v`: it
/// passes only through operations that are not kept and are referred to less
/// than `k` times.
pub open spec fn reached(
    exprs: Seq<CircuitExpression>,
    counts: Seq<usize>,
    kept: Set<usize>,
    from: usize,
    v: usize,
    k: usize,
) -> bool
    decreases from,
{
    if from < exprs.len() && from < counts.len() {
        from == v || (!kept.contains(from) && match exprs[from as int] {
            CircuitExpression::BinaryOperation(_, l, r) => {
                l < from && r < from && counts[from as int] < k && (reached(
                    exprs,
                    counts,
                    kept,
                    l,
                    v,
                    k,
                ) || reached(exprs, counts, kept, r, v, k))
            },
            _ => false,
        })
    } else {
        false
    }
}

/// Node `d` is node `a` or lies below it: it is an operand of `a`, or an
/// operand of an operand, and so on.
pub open spec fn below(exprs: Seq<CircuitExpression>, a: usize, d: usize) -> bool
    decreases a,
{
    a < exprs.len() && (a == d || match exprs[a as int] {
        CircuitExpression::BinaryOperation(_, l, r) => {
            l < a && r < a && (below(exprs, l, d) || below(exprs, r, d))
        },
        _ => false,
    })
}

/// Node `v` is an operation that is referred to at least twice.
pub open spec fn is_shared(exprs: Seq<CircuitExpression>, counts: Seq<usize>, v: usize) -> bool {
    &&& v < exprs.len()
    &&& v < counts.len()
    &&& exprs[v as int] is BinaryOperation
    &&& counts[v as int] >= 2
}

/// During the pass for the count `k`, the walk from `n` comes to no
/// operation that is not kept and is referred to more than `k` times. Such
/// an operation would have been kept in its own pass, had the passes been
/// made in descending order of their counts.
pub open spec fn stays_low(
    exprs: Seq<CircuitExpression>,
    counts: Seq<usize>,
    kept: Set<usize>,
    n: usize,
    k: usize,
) -> bool {
    forall|v: usize|
        #[trigger] reached(exprs, counts, kept, n, v, k) && exprs[v as int] is BinaryOperation
            && !kept.contains(v) ==> counts[v as int] <= k
}

/// During the pass for the count `k`, the walk from no root comes to an
/// operation that is not kept and is referred to more than `k` times.
pub open spec fn pass_stays_low(
    exprs: Seq<CircuitExpression>,
    counts: Seq<usize>,
    kept: Set<usize>,
    roots: Seq<usize>,
    k: usize,
) -> bool {
    forall|i: int| 0 <= i < roots.len() ==> stays_low(exprs, counts, kept, #[trigger] roots[i], k)
}

/// Whatever is kept has every shared operation below it kept too.
pub open spec fn closed(exprs: Seq<CircuitExpression>, counts: Seq<usize>, kept: Set<usize>)
    -> bool {
    forall|a: usize, d: usize|
        kept.contains(a) && #[trigger] below(exprs, a, d) && is_shared(exprs, counts, d)
            ==> kept.contains(d)
}

/// Every shared operation at or below `n` that is referred to at least `k`
/// times is kept.
pub open spec fn covered(
    exprs: Seq<CircuitExpression>,
    counts: Seq<usize>,
    kept: Set<usize>,
    n: usize,
    k: usize,
) -> bool {
    forall|d: usize|
        #[trigger] below(exprs, n, d) && is_shared(exprs, counts, d) && counts[d as int] >= k
            ==> kept.contains(d)
}

/// Every shared operation at or below a root that is referred to at least
/// `k` times is kept.
pub open spec fn roots_covered(
    exprs: Seq<CircuitExpression>,
    counts: Seq<usize>,
    kept: Set<usize>,
    roots: Seq<usize>,
    k: usize,
) -> bool {
    forall|i: int| 0 <= i < roots.len() ==> covered(exprs, counts, kept, #[trigger] roots[i], k)
}

/// Every shared operation at or below a root that is not kept yet has a
/// count for which a pass is still to come.
pub open spec fn passes_remain(
    exprs: Seq<CircuitExpression>,
    counts: Seq<usize>,
    kept: Set<usize>,
    roots: Seq<usize>,
    ks: Seq<usize>,
) -> bool {
    forall|i: int, d: usize|
        0 <= i < roots.len() && #[trigger] below(exprs, roots[i], d) && is_shared(exprs, counts, d)
            && !kept.contains(d) ==> ks.contains(counts[d as int])
}

/// What lies below a node that lies below another lies below the other.
pub proof fn lemma_below_transitive(exprs: Seq<CircuitExpression>, a: usize, b: usize, c: usize)
    requires
        below(exprs, a, b),
        below(exprs, b, c),
    ensures
        below(exprs, a, c),
    decreases a,
{
    if a != b {
        match exprs[a as int] {
            CircuitExpression::BinaryOperation(_, l, r) => {
                if below(exprs, l, b) {
                    lemma_below_transitive(exprs, l, b, c);
                } else {
                    lemma_below_transitive(exprs, r, b, c);
                }
            },
            _ => {},
        }
    }
}

/// A walk comes only to nodes at or below its start.
pub proof fn lemma_reached_is_below(
    exprs: Seq<CircuitExpression>,
    counts: Seq<usize>,
    kept: Set<usize>,
    from: usize,
    v: usize,
    k: usize,
)
    requires
        reached(exprs, counts, kept, from, v, k),
    ensures
        below(exprs, from, v),
        v < exprs.len(),
        v < counts.len(),
    decreases from,
{
    if from != v {
        match exprs[from as int] {
            CircuitExpression::BinaryOperation(_, l, r) => {
                if reached(exprs, counts, kept, l, v, k) {
                    lemma_reached_is_below(exprs, counts, kept, l, v, k);
                } else {
                    lemma_reached_is_below(exprs, counts, kept, r, v, k);
                }
            },
            _ => {},
        }
    }
}

/// A walk that gets somewhere gets there too when fewer nodes are kept.
pub proof fn lemma_reached_with_less_kept(
    exprs: Seq<CircuitExpression>,
    counts: Seq<usize>,
    kept: Set<usize>,
    more: Set<usize>,
    from: usize,
    v: usize,
    k: usize,
)
    requires
        reached(exprs, counts, kept.union(more), from, v, k),
    ensures
        reached(exprs, counts, kept, from, v, k),
    decreases from,
{
    if from != v {
        match exprs[from as int] {
            CircuitExpression::BinaryOperation(_, l, r) => {
                if reached(exprs, counts, kept.union(more), l, v, k) {
                    lemma_reached_with_less_kept(exprs, counts, kept, more, l, v, k);
                } else {
                    lemma_reached_with_less_kept(exprs, counts, kept, more, r, v, k);
                }
            },
            _ => {},
        }
    }
}

/// A walk that stays low stays low from the operands of its start, also
/// after more nodes have been kept.
pub proof fn lemma_stays_low_at_operand(
    exprs: Seq<CircuitExpression>,
    counts: Seq<usize>,
    kept: Set<usize>,
    more: Set<usize>,
    n: usize,
    operand: usize,
    k: usize,
)
    requires
        stays_low(exprs, counts, kept, n, k),
        n < exprs.len(),
        n < counts.len(),
        !kept.contains(n),
        exprs[n as int] is BinaryOperation,
        exprs[n as int].lhs() < n,
        exprs[n as int].rhs() < n,
        operand == exprs[n as int].lhs() || operand == exprs[n as int].rhs(),
        counts[n as int] < k,
    ensures
        stays_low(exprs, counts, kept.union(more), operand, k),
{
    assert forall|v: usize|
        #[trigger] reached(exprs, counts, kept.union(more), operand, v, k)
            && exprs[v as int] is BinaryOperation && !kept.union(more).contains(v) implies counts[v as int]
        <= k by {
        lemma_reached_with_less_kept(exprs, counts, kept, more, operand, v, k);
        assert(reached(exprs, counts, kept, n, v, k));
    }
}

/// A pass that stays low still stays low after more nodes have been kept.
pub proof fn lemma_pass_stays_low_with_more_kept(
    exprs: Seq<CircuitExpression>,
    counts: Seq<usize>,
    kept: Set<usize>,
    more: Set<usize>,
    roots: Seq<usize>,
    k: usize,
)
    requires
        pass_stays_low(exprs, counts, kept, roots, k),
    ensures
        pass_stays_low(exprs, counts, kept.union(more), roots, k),
{
    assert forall|i: int| 0 <= i < roots.len() implies stays_low(
        exprs,
        counts,
        kept.union(more),
        #[trigger] roots[i],
        k,
    ) by {
        assert(stays_low(exprs, counts, kept, roots[i], k));
        assert forall|v: usize|
            #[trigger] reached(exprs, counts, kept.union(more), roots[i], v, k)
                && exprs[v as int] is BinaryOperation && !kept.union(more).contains(
                v,
            ) implies counts[v as int] <= k by {
            lemma_reached_with_less_kept(exprs, counts, kept, more, roots[i], v, k);
        }
    }
}

/// After the shared operations at and below a node have been stored, they
/// are all kept, and whatever is kept still has every shared operation
/// below it kept.
pub proof fn lemma_stored_below_covers(
    exprs: Seq<CircuitExpression>,
    counts: Seq<usize>,
    kept: Set<usize>,
    n: usize,
)
    requires
        well_formed(exprs),
        counts.len() == exprs.len(),
        closed(exprs, counts, kept),
    ensures
        closed(exprs, counts, kept.union(stored_below(exprs, counts, kept, n).to_set())),
        covered(exprs, counts, kept.union(stored_below(exprs, counts, kept, n).to_set()), n, 2),
    decreases n,
{
    let s = stored_below(exprs, counts, kept, n);
    let after = kept.union(s.to_set());
    if n < exprs.len() && !kept.contains(n) {
        assert(exprs[n as int].fits_at(n as int));
        match exprs[n as int] {
            CircuitExpression::BinaryOperation(_, l, r) => {
                let left = stored_below(exprs, counts, kept, l);
                let kl = kept.union(left.to_set());
                let right = stored_below(exprs, counts, kl, r);
                let kr = kl.union(right.to_set());
                lemma_stored_below_covers(exprs, counts, kept, l);
                lemma_stored_below_covers(exprs, counts, kl, r);
                lemma_to_set_concat(left, right);
                lemma_to_set_concat(left + right, seq![n]);
                assert(seq![n].to_set() =~= Set::<usize>::empty().insert(n)) by {
                    assert(seq![n][0] == n);
                    assert forall|x: usize| seq![n].to_set().contains(x) <==> x == n by {
                        if x == n {
                            assert(seq![n].contains(seq![n][0]));
                        }
                    }
                }
                assert(after =~= if counts[n as int] >= 2 {
                    kr.insert(n)
                } else {
                    kr
                });
                assert forall|d: usize|
                    #[trigger] below(exprs, n, d) && is_shared(exprs, counts, d) implies after.contains(
                    d,
                ) by {
                    if d != n {
                        if below(exprs, l, d) {
                            assert(kl.contains(d));
                        } else {
                            assert(below(exprs, r, d));
                            assert(kr.contains(d));
                        }
                    }
                }
                assert forall|a: usize, d: usize|
                    after.contains(a) && #[trigger] below(exprs, a, d) && is_shared(
                        exprs,
                        counts,
                        d,
                    ) implies after.contains(d) by {
                    if kr.contains(a) {
                        assert(kr.contains(d));
                    }
                }
            },
            _ => {
                assert(after =~= kept);
            },
        }
    } else {
        assert(after =~= kept);
    }
}

/// After one walk of the pass for the count `k`, every shared operation at
/// or below the walk's start that is referred to at least `k` times is
/// kept, and whatever is kept still has every shared operation below it
/// kept.
pub proof fn lemma_picked_below_covers(
    exprs: Seq<CircuitExpression>,
    counts: Seq<usize>,
    kept: Set<usize>,
    n: usize,
    k: usize,
)
    requires
        well_formed(exprs),
        counts.len() == exprs.len(),
        closed(exprs, counts, kept),
    ensures
        closed(exprs, counts, kept.union(picked_below(exprs, counts, kept, n, k).to_set())),
        covered(exprs, counts, kept.union(picked_below(exprs, counts, kept, n, k).to_set()), n, k),
    decreases n,
{
    let s = picked_below(exprs, counts, kept, n, k);
    let after = kept.union(s.to_set());
    if n < exprs.len() && !kept.contains(n) {
        assert(exprs[n as int].fits_at(n as int));
        match exprs[n as int] {
            CircuitExpression::BinaryOperation(_, l, r) => {
                if counts[n as int] < k {
                    let left = picked_below(exprs, counts, kept, l, k);
                    let kl = kept.union(left.to_set());
                    let right = picked_below(exprs, counts, kl, r, k);
                    let kr = kl.union(right.to_set());
                    lemma_picked_below_covers(exprs, counts, kept, l, k);
                    lemma_picked_below_covers(exprs, counts, kl, r, k);
                    lemma_to_set_concat(left, right);
                    assert(after =~= kr);
                    assert forall|d: usize|
                        #[trigger] below(exprs, n, d) && is_shared(exprs, counts, d)
                            && counts[d as int] >= k implies after.contains(d) by {
                        if below(exprs, l, d) {
                            assert(kl.contains(d));
                        } else {
                            assert(below(exprs, r, d));
                        }
                    }
                } else {
                    lemma_stored_below_covers(exprs, counts, kept, n);
                }
            },
            _ => {
                assert(after =~= kept);
            },
        }
    } else {
        assert(after =~= kept);
    }
}

/// After the pass for the count `k`, every shared operation at or below a
/// root that is referred to at least `k` times is kept, and whatever is
/// kept still has every shared operation below it kept.
pub proof fn lemma_picked_for_count_covers(
    exprs: Seq<CircuitExpression>,
    counts: Seq<usize>,
    kept: Set<usize>,
    roots: Seq<usize>,
    k: usize,
)
    requires
        well_formed(exprs),
        counts.len() == exprs.len(),
        closed(exprs, counts, kept),
    ensures
        closed(exprs, counts, kept.union(picked_for_count(exprs, counts, kept, roots, k).to_set())),
        roots_covered(
            exprs,
            counts,
            kept.union(picked_for_count(exprs, counts, kept, roots, k).to_set()),
            roots,
            k,
        ),
    decreases roots.len(),
{
    let s = picked_for_count(exprs, counts, kept, roots, k);
    let after = kept.union(s.to_set());
    if roots.len() == 0 {
        assert(after =~= kept);
    } else {
        let first = picked_below(exprs, counts, kept, roots[0], k);
        let k1 = kept.union(first.to_set());
        let rest = roots.drop_first();
        let later = picked_for_count(exprs, counts, k1, rest, k);
        lemma_picked_below_covers(exprs, counts, kept, roots[0], k);
        lemma_picked_for_count_covers(exprs, counts, k1, rest, k);
        lemma_to_set_concat(first, later);
        assert(after =~= k1.union(later.to_set()));
        assert forall|i: int| 0 <= i < roots.len() implies covered(
            exprs,
            counts,
            after,
            #[trigger] roots[i],
            k,
        ) by {
            if i == 0 {
                assert(covered(exprs, counts, k1, roots[0], k));
            } else {
                assert(rest[i - 1] == roots[i]);
                assert(covered(exprs, counts, after, rest[i - 1], k));
            }
        }
    }
}

/// One pass leaves for the passes after it only counts that they are for.
pub proof fn lemma_pass(
    exprs: Seq<CircuitExpression>,
    counts: Seq<usize>,
    kept: Set<usize>,
    roots: Seq<usize>,
    ks: Seq<usize>,
)
    requires
        well_formed(exprs),
        counts.len() == exprs.len(),
        closed(exprs, counts, kept),
        passes_remain(exprs, counts, kept, roots, ks),
        ks.len() > 0,
    ensures
        closed(
            exprs,
            counts,
            kept.union(picked_for_count(exprs, counts, kept, roots, ks[0]).to_set()),
        ),
        passes_remain(
            exprs,
            counts,
            kept.union(picked_for_count(exprs, counts, kept, roots, ks[0]).to_set()),
            roots,
            ks.drop_first(),
        ),
{
    let after = kept.union(picked_for_count(exprs, counts, kept, roots, ks[0]).to_set());
    let rest = ks.drop_first();
    lemma_picked_for_count_covers(exprs, counts, kept, roots, ks[0]);
    assert forall|i: int, d: usize|
        0 <= i < roots.len() && #[trigger] below(exprs, roots[i], d) && is_shared(exprs, counts, d)
            && !after.contains(d) implies rest.contains(counts[d as int]) by {
        assert(covered(exprs, counts, after, roots[i], ks[0]));
        assert(counts[d as int] < ks[0]);
        assert(ks.contains(counts[d as int]));
        let j = choose|j: int| 0 <= j < ks.len() && ks[j] == counts[d as int];
        assert(rest[j - 1] == counts[d as int]);
    }
}

/// Passes in descending order of their counts stay low: before the pass for
/// the largest count that is still to come, no operation at or below a root
/// that is not kept is referred to more often.
pub proof fn lemma_pass_stays_low(
    exprs: Seq<CircuitExpression>,
    counts: Seq<usize>,
    kept: Set<usize>,
    roots: Seq<usize>,
    ks: Seq<usize>,
)
    requires
        passes_remain(exprs, counts, kept, roots, ks),
        strictly_descending(ks),
        ks.len() > 0,
        ks[0] >= 2,
    ensures
        pass_stays_low(exprs, counts, kept, roots, ks[0]),
{
    assert forall|i: int| 0 <= i < roots.len() implies stays_low(
        exprs,
        counts,
        kept,
        #[trigger] roots[i],
        ks[0],
    ) by {
        assert forall|v: usize|
            #[trigger] reached(exprs, counts, kept, roots[i], v, ks[0])
                && exprs[v as int] is BinaryOperation && !kept.contains(v) implies counts[v as int]
            <= ks[0] by {
            lemma_reached_is_below(exprs, counts, kept, roots[i], v, ks[0]);
            if counts[v as int] >= 2 {
                assert(is_shared(exprs, counts, v));
                assert(ks.contains(counts[v as int]));
                let j = choose|j: int| 0 <= j < ks.len() && ks[j] == counts[v as int];
                if j > 0 {
                    assert(ks[0] > ks[j]);
                }
            }
        }
    }
}

/// Before the first pass, every shared operation that is not kept has a
/// count for which a pass is to come.
pub proof fn lemma_before_the_passes(
    exprs: Seq<CircuitExpression>,
    counts: Seq<usize>,
    kept: Set<usize>,
    roots: Seq<usize>,
    ks: Seq<usize>,
)
    requires
        is_relevant_counts(counts, ks),
    ensures
        strictly_descending(ks),
        forall|j: int| 0 <= j < ks.len() ==> ks[j] >= 2,
        passes_remain(exprs, counts, kept, roots, ks),
{
    assert forall|j: int| 0 <= j < ks.len() implies ks[j] >= 2 by {
        assert(ks.contains(ks[j]));
    }
    assert forall|i: int, d: usize|
        0 <= i < roots.len() && #[trigger] below(exprs, roots[i], d) && is_shared(exprs, counts, d)
            && !kept.contains(d) implies ks.contains(counts[d as int]) by {
        assert(counts.contains(counts[d as int]));
    }
}

/// What is left of a strictly descending sequence is strictly descending.
pub proof fn lemma_descending_rest(ks: Seq<usize>, i: int)
    requires
        strictly_descending(ks),
        0 <= i <= ks.len(),
    ensures
        strictly_descending(ks.skip(i)),
{
    assert forall|a: int, b: int| 0 <= a < b < ks.skip(i).len() implies ks.skip(i)[a] > ks.skip(
        i,
    )[b] by {
        assert(ks[i + a] > ks[i + b]);
    }
}

/// After a pass for every count that was still to come, every shared
/// operation at or below a root is kept.
pub proof fn lemma_picked_for_counts_covers(
    exprs: Seq<CircuitExpression>,
    counts: Seq<usize>,
    kept: Set<usize>,
    roots: Seq<usize>,
    ks: Seq<usize>,
)
    requires
        well_formed(exprs),
        counts.len() == exprs.len(),
        closed(exprs, counts, kept),
        passes_remain(exprs, counts, kept, roots, ks),
    ensures
        roots_covered(
            exprs,
            counts,
            kept.union(picked_for_counts(exprs, counts, kept, roots, ks).to_set()),
            roots,
            2,
        ),
    decreases ks.len(),
{
    let after = kept.union(picked_for_counts(exprs, counts, kept, roots, ks).to_set());
    if ks.len() == 0 {
        assert(after =~= kept);
        assert forall|i: int| 0 <= i < roots.len() implies covered(
            exprs,
            counts,
            after,
            #[trigger] roots[i],
            2,
        ) by {
            assert forall|d: usize|
                #[trigger] below(exprs, roots[i], d) && is_shared(exprs, counts, d) implies after.contains(
                d,
            ) by {
                if !kept.contains(d) {
                    assert(ks.contains(counts[d as int]));
                }
            }
        }
    } else {
        let first = picked_for_count(exprs, counts, kept, roots, ks[0]);
        let k1 = kept.union(first.to_set());
        let later = picked_for_counts(exprs, counts, k1, roots, ks.drop_first());
        lemma_pass(exprs, counts, kept, roots, ks);
        lemma_picked_for_counts_covers(exprs, counts, k1, roots, ks.drop_first());
        lemma_to_set_concat(first, later);
        assert(after =~= k1.union(later.to_set()));
    }
}

/// A node that is a root at least once is among the roots.
pub proof fn lemma_root_uses_positive(roots: Seq<usize>, n: int)
    requires
        root_uses(roots, n) > 0,
    ensures
        exists|i: int| 0 <= i < roots.len() && #[trigger] roots[i] == n,
    decreases roots.len(),
{
    if roots.last() == n {
        assert(roots[roots.len() - 1] == n);
    } else {
        lemma_root_uses_positive(roots.drop_last(), n);
        let i = choose|i: int| 0 <= i < roots.drop_last().len() && #[trigger] roots.drop_last()[i] == n;
        assert(roots[i] == n);
    }
}

/// A node that is an operand at least once is an operand of some node that
/// is referred to.
pub proof fn lemma_operand_uses_positive(
    exprs: Seq<CircuitExpression>,
    roots: Seq<usize>,
    n: int,
    lo: int,
)
    requires
        operand_uses(exprs, roots, n, lo) > 0,
    ensures
        exists|p: int|
            lo <= p < exprs.len() && #[trigger] reference_count(exprs, roots, p) > 0
                && exprs[p].uses(n) > 0,
    decreases exprs.len() - lo,
{
    if reference_count(exprs, roots, lo) > 0 && exprs[lo].uses(n) > 0 {
    } else {
        lemma_operand_uses_positive(exprs, roots, n, lo + 1);
        let p = choose|p: int|
            lo + 1 <= p < exprs.len() && #[trigger] reference_count(exprs, roots, p) > 0
                && exprs[p].uses(n) > 0;
        assert(lo <= p < exprs.len() && reference_count(exprs, roots, p) > 0 && exprs[p].uses(n)
            > 0);
    }
}

/// A node that is referred to lies at or below a root.
pub proof fn lemma_counted_is_below_a_root(
    exprs: Seq<CircuitExpression>,
    roots: Seq<usize>,
    v: usize,
)
    requires
        well_formed(exprs),
        exprs.len() <= usize::MAX,
        v < exprs.len(),
        reference_count(exprs, roots, v as int) > 0,
    ensures
        exists|i: int| 0 <= i < roots.len() && #[trigger] below(exprs, roots[i], v),
    decreases exprs.len() - v,
{
    if root_uses(roots, v as int) > 0 {
        lemma_root_uses_positive(roots, v as int);
        let i = choose|i: int| 0 <= i < roots.len() && #[trigger] roots[i] == v as int;
        assert(below(exprs, roots[i], v));
    } else {
        lemma_operand_uses_positive(exprs, roots, v as int, v + 1);
        let p = choose|p: int|
            v + 1 <= p < exprs.len() && #[trigger] reference_count(exprs, roots, p) > 0
                && exprs[p].uses(v as int) > 0;
        lemma_counted_is_below_a_root(exprs, roots, p as usize);
        let i = choose|i: int| 0 <= i < roots.len() && #[trigger] below(exprs, roots[i], p as usize);
        assert(exprs[p].fits_at(p));
        assert(below(exprs, p as usize, v)) by {
            match exprs[p] {
                CircuitExpression::BinaryOperation(_, l, r) => {
                    if l == v {
                        assert(below(exprs, l, v));
                    } else {
                        assert(r == v);
                        assert(below(exprs, r, v));
                    }
                },
                _ => {},
            }
        }
        lemma_below_transitive(exprs, roots[i], p as usize, v);
    }
}

/// Sharing soundness: the shared nodes of a batch are exactly the
/// operations that are referred to at least twice. Each is computed and
/// kept once; see `lemma_shared_nodes`.
pub proof fn lemma_shared_nodes_exact(exprs: Seq<CircuitExpression>, roots: Seq<usize>, v: usize)
    requires
        well_formed(exprs),
        exprs.len() <= usize::MAX,
        countable(exprs, roots),
    ensures
        shared_nodes(exprs, roots).contains(v) <==> (v < exprs.len()
            && exprs[v as int] is BinaryOperation && reference_count(exprs, roots, v as int) >= 2),
{
    let counts = reference_counts_of(exprs, roots);
    let ks = relevant_counts_of(counts);
    let nothing = Set::<usize>::empty();
    let shared = shared_nodes(exprs, roots);
    lemma_shared_nodes(exprs, roots);
    if shared.contains(v) {
        let i = choose|i: int| 0 <= i < shared.len() && shared[i] == v;
        assert(shared[i] == v);
    }
    if v < exprs.len() && exprs[v as int] is BinaryOperation && reference_count(
        exprs,
        roots,
        v as int,
    ) >= 2 {
        crate::sharing::lemma_reference_count_bound(exprs, roots, v as int);
        assert(counts[v as int] >= 2);
        lemma_counted_is_below_a_root(exprs, roots, v);
        let i = choose|i: int| 0 <= i < roots.len() && #[trigger] below(exprs, roots[i], v);
        lemma_relevant_counts_exist(counts);
        lemma_before_the_passes(exprs, counts, nothing, roots, ks);
        lemma_picked_for_counts_covers(exprs, counts, nothing, roots, ks);
        let after = nothing.union(shared.to_set());
        assert(covered(exprs, counts, after, roots[i], 2));
        assert(after.contains(v));
    }
}

/// Every node of the run comes after every shared operation below it: such
/// an operation was kept before the run, or stands earlier in the run.
pub open spec fn in_order(
    exprs: Seq<CircuitExpression>,
    counts: Seq<usize>,
    kept: Set<usize>,
    run: Seq<usize>,
) -> bool {
    forall|i: int, d: usize|
        0 <= i < run.len() && #[trigger] below(exprs, run[i], d) && d != run[i] && is_shared(
            exprs,
            counts,
            d,
        ) ==> kept.contains(d) || run.take(i).contains(d)
}

/// Two runs in order, the second made after the first, are in order when
/// joined.
pub proof fn lemma_in_order_join(
    exprs: Seq<CircuitExpression>,
    counts: Seq<usize>,
    kept: Set<usize>,
    a: Seq<usize>,
    b: Seq<usize>,
)
    requires
        in_order(exprs, counts, kept, a),
        in_order(exprs, counts, kept.union(a.to_set()), b),
    ensures
        in_order(exprs, counts, kept, a + b),
{
    let c = a + b;
    assert forall|i: int, d: usize|
        0 <= i < c.len() && #[trigger] below(exprs, c[i], d) && d != c[i] && is_shared(
            exprs,
            counts,
            d,
        ) implies kept.contains(d) || c.take(i).contains(d) by {
        if i < a.len() {
            assert(c[i] == a[i]);
            if a.take(i).contains(d) {
                let j = choose|j: int| 0 <= j < a.take(i).len() && a.take(i)[j] == d;
                assert(c.take(i)[j] == d);
            }
        } else {
            let m = i - a.len();
            assert(c[i] == b[m]);
            if a.contains(d) {
                let j = choose|j: int| 0 <= j < a.len() && a[j] == d;
                assert(c.take(i)[j] == d);
            } else if b.take(m).contains(d) {
                let j = choose|j: int| 0 <= j < b.take(m).len() && b.take(m)[j] == d;
                assert(c.take(i)[a.len() + j] == d);
            }
        }
    }
}

/// What is stored below a node is stored in order.
pub proof fn lemma_stored_below_in_order(
    exprs: Seq<CircuitExpression>,
    counts: Seq<usize>,
    kept: Set<usize>,
    n: usize,
)
    requires
        well_formed(exprs),
        counts.len() == exprs.len(),
        closed(exprs, counts, kept),
    ensures
        in_order(exprs, counts, kept, stored_below(exprs, counts, kept, n)),
    decreases n,
{
    if n < exprs.len() && !kept.contains(n) {
        assert(exprs[n as int].fits_at(n as int));
        match exprs[n as int] {
            CircuitExpression::BinaryOperation(_, l, r) => {
                let left = stored_below(exprs, counts, kept, l);
                let kl = kept.union(left.to_set());
                let right = stored_below(exprs, counts, kl, r);
                let kr = kl.union(right.to_set());
                lemma_stored_below_covers(exprs, counts, kept, l);
                lemma_stored_below_covers(exprs, counts, kl, r);
                lemma_stored_below_in_order(exprs, counts, kept, l);
                lemma_stored_below_in_order(exprs, counts, kl, r);
                lemma_in_order_join(exprs, counts, kept, left, right);
                if counts[n as int] >= 2 {
                    let last = seq![n];
                    lemma_to_set_concat(left, right);
                    assert(kept.union((left + right).to_set()) =~= kr);
                    assert forall|i: int, d: usize|
                        0 <= i < last.len() && #[trigger] below(exprs, last[i], d) && d != last[i]
                            && is_shared(exprs, counts, d) implies kr.contains(d) || last.take(
                        i,
                    ).contains(d) by {
                        if below(exprs, l, d) {
                            assert(kl.contains(d));
                        } else {
                            assert(below(exprs, r, d));
                        }
                    }
                    lemma_in_order_join(exprs, counts, kept, left + right, last);
                }
            },
            _ => {},
        }
    }
}

/// What one walk picks is picked in order.
pub proof fn lemma_picked_below_in_order(
    exprs: Seq<CircuitExpression>,
    counts: Seq<usize>,
    kept: Set<usize>,
    n: usize,
    k: usize,
)
    requires
        well_formed(exprs),
        counts.len() == exprs.len(),
        closed(exprs, counts, kept),
    ensures
        in_order(exprs, counts, kept, picked_below(exprs, counts, kept, n, k)),
    decreases n,
{
    if n < exprs.len() && !kept.contains(n) {
        assert(exprs[n as int].fits_at(n as int));
        match exprs[n as int] {
            CircuitExpression::BinaryOperation(_, l, r) => {
                if counts[n as int] < k {
                    let left = picked_below(exprs, counts, kept, l, k);
                    let kl = kept.union(left.to_set());
                    lemma_picked_below_covers(exprs, counts, kept, l, k);
                    lemma_picked_below_in_order(exprs, counts, kept, l, k);
                    lemma_picked_below_in_order(exprs, counts, kl, r, k);
                    lemma_in_order_join(
                        exprs,
                        counts,
                        kept,
                        left,
                        picked_below(exprs, counts, kl, r, k),
                    );
                } else {
                    lemma_stored_below_in_order(exprs, counts, kept, n);
                }
            },
            _ => {},
        }
    }
}

/// What one pass picks is picked in order.
pub proof fn lemma_picked_for_count_in_order(
    exprs: Seq<CircuitExpression>,
    counts: Seq<usize>,
    kept: Set<usize>,
    roots: Seq<usize>,
    k: usize,
)
    requires
        well_formed(exprs),
        counts.len() == exprs.len(),
        closed(exprs, counts, kept),
    ensures
        in_order(exprs, counts, kept, picked_for_count(exprs, counts, kept, roots, k)),
    decreases roots.len(),
{
    if roots.len() > 0 {
        let first = picked_below(exprs, counts, kept, roots[0], k);
        let k1 = kept.union(first.to_set());
        lemma_picked_below_covers(exprs, counts, kept, roots[0], k);
        lemma_picked_below_in_order(exprs, counts, kept, roots[0], k);
        lemma_picked_for_count_in_order(exprs, counts, k1, roots.drop_first(), k);
        lemma_in_order_join(
            exprs,
            counts,
            kept,
            first,
            picked_for_count(exprs, counts, k1, roots.drop_first(), k),
        );
    }
}

/// What all passes pick is picked in order.
pub proof fn lemma_picked_for_counts_in_order(
    exprs: Seq<CircuitExpression>,
    counts: Seq<usize>,
    kept: Set<usize>,
    roots: Seq<usize>,
    ks: Seq<usize>,
)
    requires
        well_formed(exprs),
        counts.len() == exprs.len(),
        closed(exprs, counts, kept),
    ensures
        in_order(exprs, counts, kept, picked_for_counts(exprs, counts, kept, roots, ks)),
    decreases ks.len(),
{
    if ks.len() > 0 {
        let first = picked_for_count(exprs, counts, kept, roots, ks[0]);
        let k1 = kept.union(first.to_set());
        lemma_picked_for_count_covers(exprs, counts, kept, roots, ks[0]);
        lemma_picked_for_count_in_order(exprs, counts, kept, roots, ks[0]);
        lemma_picked_for_counts_in_order(exprs, counts, k1, roots, ks.drop_first());
        lemma_in_order_join(
            exprs,
            counts,
            kept,
            first,
            picked_for_counts(exprs, counts, k1, roots, ks.drop_first()),
        );
    }
}

/// Children before parents: every shared node comes after every shared
/// operation below it, so the code that computes a shared node computes no
/// other shared operation anew.
pub proof fn lemma_shared_nodes_in_order(exprs: Seq<CircuitExpression>, roots: Seq<usize>)
    requires
        well_formed(exprs),
    ensures
        forall|i: int, d: usize|
            0 <= i < shared_nodes(exprs, roots).len() && #[trigger] below(
                exprs,
                shared_nodes(exprs, roots)[i],
                d,
            ) && d != shared_nodes(exprs, roots)[i] && is_shared(
                exprs,
                reference_counts_of(exprs, roots),
                d,
            ) ==> shared_nodes(exprs, roots).take(i).contains(d),
{
    let counts = reference_counts_of(exprs, roots);
    lemma_picked_for_counts_in_order(
        exprs,
        counts,
        Set::<usize>::empty(),
        roots,
        relevant_counts_of(counts),
    );
}

} // verus!
