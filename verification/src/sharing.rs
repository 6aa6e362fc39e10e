//! Analysis of sharing in a batch of constraints: how often each node is
//! referred to, which counts occur, and which nodes are computed once and kept
//! for reuse, in which order.

use crate::circuit::CircuitExpression;
use crate::circuit::Multicircuit;
use itertools::Itertools;
use std::collections::HashSet;
use vstd::prelude::*;
use vstd::std_specs::hash::group_hash_axioms;

verus! {

broadcast use group_hash_axioms;

/// How often node `n` is the root of a constraint.
pub open spec fn root_uses(roots: Seq<usize>, n: int) -> nat
    decreases roots.len(),
{
    if roots.len() == 0 {
        0
    } else {
        let here: nat = if roots.last() == n {
            1
        } else {
            0
        };
        root_uses(roots.drop_last(), n) + here
    }
}

/// The reference count of node `n`: how often it is a root, plus how often
/// it is an operand of a node that is itself referred to. A node that nothing
/// refers to has count 0 and passes nothing on to its operands.
pub open spec fn reference_count(exprs: Seq<CircuitExpression>, roots: Seq<usize>, n: int) -> nat
    decreases exprs.len() - n, exprs.len() + 1,
{
    if 0 <= n < exprs.len() {
        root_uses(roots, n) + operand_uses(exprs, roots, n, n + 1)
    } else {
        0
    }
}

/// How often node `n` is an operand of the referred-to nodes from position
/// `lo` on.
pub open spec fn operand_uses(
    exprs: Seq<CircuitExpression>,
    roots: Seq<usize>,
    n: int,
    lo: int,
) -> nat
    decreases exprs.len() - n, exprs.len() - lo,
{
    if 0 <= n < lo < exprs.len() {
        let here: nat = if reference_count(exprs, roots, lo) > 0 {
            exprs[lo].uses(n)
        } else {
            0
        };
        operand_uses(exprs, roots, n, lo + 1) + here
    } else {
        0
    }
}

/// The reference counts of all nodes, by position.
pub open spec fn reference_counts_of(exprs: Seq<CircuitExpression>, roots: Seq<usize>) -> Seq<
    usize,
> {
    Seq::new(exprs.len(), |n: int| reference_count(exprs, roots, n) as usize)
}

/// A node is the root of no more constraints than there are.
pub proof fn lemma_root_uses_bound(roots: Seq<usize>, n: int)
    ensures
        root_uses(roots, n) <= roots.len(),
    decreases roots.len(),
{
    if roots.len() > 0 {
        lemma_root_uses_bound(roots.drop_last(), n);
    }
}

/// A node is an operand at most twice for every node after `lo`.
pub proof fn lemma_operand_uses_bound(
    exprs: Seq<CircuitExpression>,
    roots: Seq<usize>,
    n: int,
    lo: int,
)
    requires
        0 <= n < lo <= exprs.len(),
    ensures
        operand_uses(exprs, roots, n, lo) <= 2 * (exprs.len() - lo),
    decreases exprs.len() - lo,
{
    if lo < exprs.len() {
        lemma_operand_uses_bound(exprs, roots, n, lo + 1);
    }
}

/// A reference count never exceeds the number of roots plus twice the number
/// of nodes.
pub proof fn lemma_reference_count_bound(
    exprs: Seq<CircuitExpression>,
    roots: Seq<usize>,
    n: int,
)
    ensures
        reference_count(exprs, roots, n) <= roots.len() + 2 * exprs.len(),
{
    if 0 <= n < exprs.len() {
        lemma_root_uses_bound(roots, n);
        lemma_operand_uses_bound(exprs, roots, n, n + 1);
    }
}

/// Whether the reference counts of a batch fit the machine word.
pub open spec fn countable(exprs: Seq<CircuitExpression>, roots: Seq<usize>) -> bool {
    roots.len() + 2 * exprs.len() <= usize::MAX
}

/// Decides whether the reference counts of a batch fit the machine word.
pub fn is_countable(circuits: &Multicircuit) -> (r: bool)
    ensures
        r == countable(circuits.expressions@, circuits.roots@),
{
    let len = circuits.expressions.len();
    let num_roots = circuits.roots.len();
    len <= usize::MAX - num_roots && len <= usize::MAX - num_roots - len
}

/// The sequence `s` without the later occurrences of each value.
pub open spec fn first_occurrences(s: Seq<usize>) -> Seq<usize>
    decreases s.len(),
{
    if s.len() == 0 {
        Seq::<usize>::empty()
    } else if s.drop_last().contains(s.last()) {
        first_occurrences(s.drop_last())
    } else {
        first_occurrences(s.drop_last()).push(s.last())
    }
}

/// No value is larger than a later one.
pub open spec fn ascending(s: Seq<usize>) -> bool {
    forall|i: int, j: int| 0 <= i < j < s.len() ==> s[i] <= s[j]
}

/// Every value is smaller than the later ones.
pub open spec fn strictly_ascending(s: Seq<usize>) -> bool {
    forall|i: int, j: int| 0 <= i < j < s.len() ==> s[i] < s[j]
}

/// Every value is larger than the later ones.
pub open spec fn strictly_descending(s: Seq<usize>) -> bool {
    forall|i: int, j: int| 0 <= i < j < s.len() ==> s[i] > s[j]
}

/// The values in ascending order.
///
/// Calls `Itertools::sorted` of `itertools`. Claimed, not proved: the result
/// holds the same values, each as often as `v` does, in ascending order.
#[verifier::external_body]
fn sorted(v: &Vec<usize>) -> (r: Vec<usize>)
    ensures
        r@.to_multiset() == v@.to_multiset(),
        ascending(r@),
{
    v.iter().copied().sorted().collect()
}

/// The values without repetition.
///
/// Calls `Itertools::unique` of `itertools`. Claimed, not proved: the result
/// keeps the first occurrence of each value, in the order of `v`.
#[verifier::external_body]
fn unique(v: &Vec<usize>) -> (r: Vec<usize>)
    ensures
        r@ == first_occurrences(v@),
{
    v.iter().copied().unique().collect()
}

/// Dropping later occurrences keeps every value, and turns an ascending
/// sequence into a strictly ascending one.
pub proof fn lemma_first_occurrences(s: Seq<usize>)
    ensures
        forall|x: usize| first_occurrences(s).contains(x) <==> s.contains(x),
        ascending(s) ==> strictly_ascending(first_occurrences(s)),
    decreases s.len(),
{
    if s.len() > 0 {
        let init = s.drop_last();
        let last = s.last();
        let f = first_occurrences(s);
        let fi = first_occurrences(init);
        lemma_first_occurrences(init);
        assert forall|x: usize| f.contains(x) <==> s.contains(x) by {
            if f.contains(x) {
                let i = choose|i: int| 0 <= i < f.len() && f[i] == x;
                if i < fi.len() {
                    assert(fi[i] == x);
                    assert(fi.contains(x));
                    assert(init.contains(x));
                    let j = choose|j: int| 0 <= j < init.len() && init[j] == x;
                    assert(s[j] == x);
                } else {
                    assert(x == last);
                    assert(s[s.len() - 1] == x);
                }
            }
            if s.contains(x) {
                let j = choose|j: int| 0 <= j < s.len() && s[j] == x;
                if j < init.len() {
                    assert(init[j] == x);
                    assert(init.contains(x));
                    assert(fi.contains(x));
                    let i = choose|i: int| 0 <= i < fi.len() && fi[i] == x;
                    assert(f[i] == x);
                } else {
                    assert(x == last);
                    if init.contains(last) {
                        assert(fi.contains(x));
                    } else {
                        assert(f[f.len() - 1] == x);
                    }
                }
            }
        }
        if ascending(s) {
            assert(ascending(init)) by {
                assert forall|i: int, j: int| 0 <= i < j < init.len() implies init[i]
                    <= init[j] by {
                    assert(s[i] <= s[j]);
                }
            }
            if !init.contains(last) {
                assert forall|i: int, j: int| 0 <= i < j < f.len() implies f[i] < f[j] by {
                    if j < fi.len() {
                        assert(fi[i] < fi[j]);
                    } else {
                        assert(fi.contains(fi[i]));
                        assert(init.contains(fi[i]));
                        let k = choose|k: int| 0 <= k < init.len() && init[k] == fi[i];
                        assert(s[k] <= s[s.len() - 1]);
                    }
                }
            }
        }
    }
}

/// Computes the reference count of every node, by position.
pub fn reference_counts(circuits: &Multicircuit) -> (counts: Vec<usize>)
    requires
        circuits.wf(),
        countable(circuits.expressions@, circuits.roots@),
    ensures
        counts@ == reference_counts_of(circuits.expressions@, circuits.roots@),
{
    let len = circuits.expressions.len();
    let num_roots = circuits.roots.len();
    let ghost exprs = circuits.expressions@;
    let ghost roots = circuits.roots@;
    let mut counts: Vec<usize> = Vec::new();
    let mut n: usize = 0;
    while n < len
        invariant
            n <= len,
            counts@.len() == n,
            forall|k: int| 0 <= k < n ==> counts@[k] == 0,
        decreases len - n,
    {
        counts.push(0);
        n = n + 1;
    }
    let mut i: usize = 0;
    while i < num_roots
        invariant
            circuits.wf(),
            exprs == circuits.expressions@,
            roots == circuits.roots@,
            len == exprs.len(),
            num_roots == roots.len(),
            countable(exprs, roots),
            i <= num_roots,
            counts@.len() == len,
            forall|k: int| 0 <= k < len ==> counts@[k] == root_uses(roots.take(i as int), k),
        decreases num_roots - i,
    {
        let root = circuits.roots[i];
        proof {
            assert(roots.take(i + 1).drop_last() == roots.take(i as int));
            lemma_root_uses_bound(roots.take(i as int), root as int);
        }
        counts.set(root, counts[root] + 1);
        i = i + 1;
    }
    proof {
        assert(roots.take(i as int) == roots);
    }
    let mut hi: usize = len;
    while hi > 0
        invariant
            circuits.wf(),
            exprs == circuits.expressions@,
            roots == circuits.roots@,
            len == exprs.len(),
            countable(exprs, roots),
            hi <= len,
            counts@.len() == len,
            forall|k: int|
                0 <= k < len ==> counts@[k] == root_uses(roots, k) + operand_uses(
                    exprs,
                    roots,
                    k,
                    if k < hi {
                        hi as int
                    } else {
                        k + 1
                    },
                ),
        decreases hi,
    {
        let p = hi - 1;
        let ghost before = counts@;
        assert(counts@[p as int] == reference_count(exprs, roots, p as int));
        if counts[p] > 0 {
            match circuits.expressions[p] {
                CircuitExpression::BinaryOperation(_, l, r) => {
                    proof {
                        assert(exprs[p as int].fits_at(p as int));
                        lemma_root_uses_bound(roots, l as int);
                        lemma_root_uses_bound(roots, r as int);
                        lemma_operand_uses_bound(exprs, roots, l as int, hi as int);
                        lemma_operand_uses_bound(exprs, roots, r as int, hi as int);
                    }
                    counts.set(l, counts[l] + 1);
                    counts.set(r, counts[r] + 1);
                },
                _ => {},
            }
        }
        proof {
            assert forall|k: int| 0 <= k < len implies counts@[k] == root_uses(roots, k)
                + operand_uses(
                exprs,
                roots,
                k,
                if k < p {
                    p as int
                } else {
                    k + 1
                },
            ) by {
                if k < p {
                    assert(before[k] == root_uses(roots, k) + operand_uses(
                        exprs,
                        roots,
                        k,
                        hi as int,
                    ));
                } else {
                    assert(exprs[p as int].fits_at(p as int));
                    assert(counts@[k] == before[k]);
                }
            }
        }
        hi = p;
    }
    proof {
        assert(counts@ =~= reference_counts_of(exprs, roots)) by {
            assert forall|k: int| 0 <= k < len implies counts@[k] == reference_count(
                exprs,
                roots,
                k,
            ) as usize by {
                lemma_reference_count_bound(exprs, roots, k);
            }
        }
    }
    counts
}

/// The values above 1 that occur in `s`, each once, largest first.
pub open spec fn is_relevant_counts(s: Seq<usize>, r: Seq<usize>) -> bool {
    &&& strictly_descending(r)
    &&& forall|c: usize| r.contains(c) <==> (c > 1 && s.contains(c))
}

/// A strictly descending sequence is determined by the values it holds.
pub proof fn lemma_descending_unique(a: Seq<usize>, b: Seq<usize>)
    requires
        strictly_descending(a),
        strictly_descending(b),
        forall|x: usize| a.contains(x) <==> b.contains(x),
    ensures
        a == b,
    decreases a.len(),
{
    if a.len() == 0 {
        if b.len() > 0 {
            assert(b.contains(b[0]));
        }
        assert(a =~= b);
    } else {
        assert(a.contains(a[0]));
        let j = choose|j: int| 0 <= j < b.len() && b[j] == a[0];
        assert(b.contains(b[0]));
        let i = choose|i: int| 0 <= i < a.len() && a[i] == b[0];
        assert(a[0] == b[0]) by {
            if i > 0 {
                assert(a[0] > a[i]);
            }
            if j > 0 {
                assert(b[0] > b[j]);
            }
        }
        let ta = a.skip(1);
        let tb = b.skip(1);
        assert forall|x: usize| ta.contains(x) <==> tb.contains(x) by {
            if ta.contains(x) {
                let k = choose|k: int| 0 <= k < ta.len() && ta[k] == x;
                assert(a[k + 1] == x);
                assert(a[0] > a[k + 1]);
                assert(a.contains(x));
                let m = choose|m: int| 0 <= m < b.len() && b[m] == x;
                assert(m > 0);
                assert(tb[m - 1] == x);
            }
            if tb.contains(x) {
                let k = choose|k: int| 0 <= k < tb.len() && tb[k] == x;
                assert(b[k + 1] == x);
                assert(b[0] > b[k + 1]);
                assert(b.contains(x));
                let m = choose|m: int| 0 <= m < a.len() && a[m] == x;
                assert(m > 0);
                assert(ta[m - 1] == x);
            }
        }
        assert(strictly_descending(ta)) by {
            assert forall|p: int, q: int| 0 <= p < q < ta.len() implies ta[p] > ta[q] by {
                assert(a[p + 1] > a[q + 1]);
            }
        }
        assert(strictly_descending(tb)) by {
            assert forall|p: int, q: int| 0 <= p < q < tb.len() implies tb[p] > tb[q] by {
                assert(b[p + 1] > b[q + 1]);
            }
        }
        lemma_descending_unique(ta, tb);
        assert(a =~= b) by {
            assert(a.len() == b.len());
            assert forall|k: int| 0 <= k < a.len() implies a[k] == b[k] by {
                if k > 0 {
                    assert(ta[k - 1] == tb[k - 1]);
                }
            }
        }
    }
}

/// The reference counts that mark sharing: the values above 1 that occur in
/// `s`, each once, largest first.
pub open spec fn relevant_counts_of(s: Seq<usize>) -> Seq<usize> {
    choose|r: Seq<usize>| is_relevant_counts(s, r)
}

/// Any sequence that holds the values above 1 of `s` in strictly descending
/// order is the sequence of relevant counts.
pub proof fn lemma_relevant_counts(s: Seq<usize>, r: Seq<usize>)
    requires
        is_relevant_counts(s, r),
    ensures
        r == relevant_counts_of(s),
{
    lemma_descending_unique(r, relevant_counts_of(s));
}

/// The operations at and below `n` that are referred to at least twice and
/// not kept yet, each after those below it: the left operand's, then the
/// right operand's, then `n` itself. Nothing below a kept node is taken,
/// since a node is kept only after everything shared below it.
pub open spec fn stored_below(
    exprs: Seq<CircuitExpression>,
    counts: Seq<usize>,
    kept: Set<usize>,
    n: usize,
) -> Seq<usize>
    decreases n,
{
    if n < exprs.len() && n < counts.len() && !kept.contains(n) {
        match exprs[n as int] {
            CircuitExpression::BinaryOperation(_, l, r) => {
                if l < n && r < n {
                    let left = stored_below(exprs, counts, kept, l);
                    let right = stored_below(exprs, counts, kept.union(left.to_set()), r);
                    if counts[n as int] >= 2 {
                        left + right + seq![n]
                    } else {
                        left + right
                    }
                } else {
                    Seq::<usize>::empty()
                }
            },
            _ => Seq::<usize>::empty(),
        }
    } else {
        Seq::<usize>::empty()
    }
}

/// The nodes below `n` (and `n` itself) that one pass for the count `k`
/// picks for keeping, in the order in which it keeps them. The pass stops at
/// nodes that are kept already and at leaves, and walks through operations
/// that are referred to less than `k` times, left operand first. Where it
/// comes to another operation, it picks that operation after every shared
/// operation below it.
pub open spec fn picked_below(
    exprs: Seq<CircuitExpression>,
    counts: Seq<usize>,
    kept: Set<usize>,
    n: usize,
    k: usize,
) -> Seq<usize>
    decreases n,
{
    if n < exprs.len() && n < counts.len() && !kept.contains(n) {
        match exprs[n as int] {
            CircuitExpression::BinaryOperation(_, l, r) => {
                if l < n && r < n {
                    if counts[n as int] < k {
                        let left = picked_below(exprs, counts, kept, l, k);
                        left + picked_below(exprs, counts, kept.union(left.to_set()), r, k)
                    } else {
                        stored_below(exprs, counts, kept, n)
                    }
                } else {
                    Seq::<usize>::empty()
                }
            },
            _ => Seq::<usize>::empty(),
        }
    } else {
        Seq::<usize>::empty()
    }
}

/// The nodes that the pass for the count `k` picks, walking from each root
/// in turn; what an earlier root picked is kept when the later ones are
/// walked.
pub open spec fn picked_for_count(
    exprs: Seq<CircuitExpression>,
    counts: Seq<usize>,
    kept: Set<usize>,
    roots: Seq<usize>,
    k: usize,
) -> Seq<usize>
    decreases roots.len(),
{
    if roots.len() == 0 {
        Seq::<usize>::empty()
    } else {
        let first = picked_below(exprs, counts, kept, roots[0], k);
        first + picked_for_count(
            exprs,
            counts,
            kept.union(first.to_set()),
            roots.drop_first(),
            k,
        )
    }
}

/// The nodes picked by one pass for each of the counts `ks` in turn.
pub open spec fn picked_for_counts(
    exprs: Seq<CircuitExpression>,
    counts: Seq<usize>,
    kept: Set<usize>,
    roots: Seq<usize>,
    ks: Seq<usize>,
) -> Seq<usize>
    decreases ks.len(),
{
    if ks.len() == 0 {
        Seq::<usize>::empty()
    } else {
        let first = picked_for_count(exprs, counts, kept, roots, ks[0]);
        first + picked_for_counts(
            exprs,
            counts,
            kept.union(first.to_set()),
            roots,
            ks.drop_first(),
        )
    }
}

/// The shared nodes of a batch: the nodes that are computed once and kept,
/// in the order in which they are computed. There is one pass for each
/// reference count above 1, largest count first; a node is kept after
/// everything shared below it.
pub open spec fn shared_nodes(exprs: Seq<CircuitExpression>, roots: Seq<usize>) -> Seq<usize> {
    let counts = reference_counts_of(exprs, roots);
    picked_for_counts(exprs, counts, Set::<usize>::empty(), roots, relevant_counts_of(counts))
}

/// The reference counts that mark sharing: the distinct values above 1 among
/// `counts`, in descending order.
pub fn relevant_ref_counts(counts: &Vec<usize>) -> (r: Vec<usize>)
    ensures
        is_relevant_counts(counts@, r@),
        r@ == relevant_counts_of(counts@),
{
    let in_order = sorted(counts);
    let distinct = unique(&in_order);
    proof {
        lemma_first_occurrences(in_order@);
        in_order@.to_multiset_ensures();
        counts@.to_multiset_ensures();
        assert forall|c: usize| distinct@.contains(c) <==> counts@.contains(c) by {
            assert(in_order@.contains(c) <==> in_order@.to_multiset().count(c) > 0);
            assert(counts@.contains(c) <==> counts@.to_multiset().count(c) > 0);
        }
    }
    let mut r: Vec<usize> = Vec::new();
    let mut i: usize = distinct.len();
    while i > 0
        invariant
            i <= distinct@.len(),
            strictly_ascending(distinct@),
            strictly_descending(r@),
            forall|k: int, j: int| 0 <= k < r@.len() && 0 <= j < i ==> r@[k] > distinct@[j],
            forall|c: usize|
                r@.contains(c) <==> (c > 1 && exists|j: int|
                    i <= j < distinct@.len() && distinct@[j] == c),
        decreases i,
    {
        i = i - 1;
        let c = distinct[i];
        let ghost before = r@;
        if c > 1 {
            r.push(c);
            proof {
                assert forall|x: usize| r@.contains(x) <==> (x > 1 && exists|j: int|
                    i <= j < distinct@.len() && distinct@[j] == x) by {
                    if r@.contains(x) {
                        let k = choose|k: int| 0 <= k < r@.len() && r@[k] == x;
                        if k < before.len() {
                            assert(before[k] == x);
                            assert(before.contains(x));
                        } else {
                            assert(distinct@[i as int] == x);
                        }
                    }
                    if x > 1 && exists|j: int| i <= j < distinct@.len() && distinct@[j] == x {
                        let j = choose|j: int| i <= j < distinct@.len() && distinct@[j] == x;
                        if j == i {
                            assert(r@[r@.len() - 1] == x);
                        } else {
                            assert(before.contains(x));
                            let k = choose|k: int| 0 <= k < before.len() && before[k] == x;
                            assert(r@[k] == x);
                        }
                    }
                }
            }
        } else {
            proof {
                assert forall|x: usize| r@.contains(x) <==> (x > 1 && exists|j: int|
                    i <= j < distinct@.len() && distinct@[j] == x) by {
                    if x > 1 && exists|j: int| i <= j < distinct@.len() && distinct@[j] == x {
                        let j = choose|j: int| i <= j < distinct@.len() && distinct@[j] == x;
                        assert(j != i);
                    }
                }
            }
        }
    }
    proof {
        assert forall|c: usize| r@.contains(c) <==> (c > 1 && counts@.contains(c)) by {
            if c > 1 && counts@.contains(c) {
                assert(distinct@.contains(c));
                let j = choose|j: int| 0 <= j < distinct@.len() && distinct@[j] == c;
                assert(0 <= j < distinct@.len() && distinct@[j] == c);
            }
            if r@.contains(c) {
                let j = choose|j: int| 0 <= j < distinct@.len() && distinct@[j] == c;
                assert(distinct@.contains(c));
            }
        }
        lemma_relevant_counts(counts@, r@);
    }
    r
}

/// The values of two runs joined are the values of either.
pub proof fn lemma_to_set_concat(a: Seq<usize>, b: Seq<usize>)
    ensures
        (a + b).to_set() == a.to_set().union(b.to_set()),
{
    assert((a + b).to_set() =~= a.to_set().union(b.to_set())) by {
        assert forall|x: usize| (a + b).to_set().contains(x) <==> a.to_set().union(
            b.to_set(),
        ).contains(x) by {
            if (a + b).contains(x) {
                let i = choose|i: int| 0 <= i < (a + b).len() && (a + b)[i] == x;
                if i < a.len() {
                    assert(a[i] == x);
                    assert(a.contains(x));
                } else {
                    assert(b[i - a.len()] == x);
                    assert(b.contains(x));
                }
            }
            if a.contains(x) {
                let i = choose|i: int| 0 <= i < a.len() && a[i] == x;
                assert((a + b)[i] == x);
            }
            if b.contains(x) {
                let i = choose|i: int| 0 <= i < b.len() && b[i] == x;
                assert((a + b)[a.len() + i] == x);
            }
        }
    }
}

/// What holds of every node in a run of picked nodes: it is an operation of
/// the graph, it is referred to at least `k` times, and it was not kept
/// before.
pub open spec fn all_picked_well(
    exprs: Seq<CircuitExpression>,
    counts: Seq<usize>,
    kept: Set<usize>,
    picked: Seq<usize>,
    k: usize,
) -> bool {
    forall|i: int|
        0 <= i < picked.len() ==> {
            &&& (#[trigger] picked[i]) < exprs.len()
            &&& picked[i] < counts.len()
            &&& exprs[picked[i] as int] is BinaryOperation
            &&& counts[picked[i] as int] >= k
            &&& !kept.contains(picked[i])
        }
}

/// Joining two runs of which the second avoids the first: what holds of
/// every node of either holds of every node of the whole, and no node occurs
/// twice.
pub proof fn lemma_join_picked(
    exprs: Seq<CircuitExpression>,
    counts: Seq<usize>,
    kept: Set<usize>,
    a: Seq<usize>,
    b: Seq<usize>,
    k: usize,
)
    requires
        all_picked_well(exprs, counts, kept, a, k),
        all_picked_well(exprs, counts, kept.union(a.to_set()), b, k),
        a.no_duplicates(),
        b.no_duplicates(),
    ensures
        all_picked_well(exprs, counts, kept, a + b, k),
        (a + b).no_duplicates(),
{
    let c = a + b;
    assert forall|i: int| 0 <= i < c.len() implies {
        &&& (#[trigger] c[i]) < exprs.len()
        &&& c[i] < counts.len()
        &&& exprs[c[i] as int] is BinaryOperation
        &&& counts[c[i] as int] >= k
        &&& !kept.contains(c[i])
    } by {
        if i < a.len() {
            assert(c[i] == a[i]);
        } else {
            assert(c[i] == b[i - a.len()]);
        }
    }
    assert forall|i: int, j: int| 0 <= i < c.len() && 0 <= j < c.len() && i != j implies c[i]
        != c[j] by {
        if i < a.len() && j >= a.len() {
            assert(a.contains(a[i]));
            assert(c[j] == b[j - a.len()]);
            assert(!kept.union(a.to_set()).contains(b[j - a.len()]));
        }
        if j < a.len() && i >= a.len() {
            assert(a.contains(a[j]));
            assert(c[i] == b[i - a.len()]);
            assert(!kept.union(a.to_set()).contains(b[i - a.len()]));
        }
    }
}

/// What is stored below a node: operations at or below it that are referred
/// to at least twice and were not kept before, none of them twice.
pub proof fn lemma_stored_below(
    exprs: Seq<CircuitExpression>,
    counts: Seq<usize>,
    kept: Set<usize>,
    n: usize,
)
    ensures
        all_picked_well(exprs, counts, kept, stored_below(exprs, counts, kept, n), 2),
        stored_below(exprs, counts, kept, n).no_duplicates(),
        forall|i: int|
            0 <= i < stored_below(exprs, counts, kept, n).len() ==> #[trigger] stored_below(
                exprs,
                counts,
                kept,
                n,
            )[i] <= n,
    decreases n,
{
    if n < exprs.len() && n < counts.len() && !kept.contains(n) {
        match exprs[n as int] {
            CircuitExpression::BinaryOperation(_, l, r) => {
                if l < n && r < n {
                    let left = stored_below(exprs, counts, kept, l);
                    let right = stored_below(exprs, counts, kept.union(left.to_set()), r);
                    lemma_stored_below(exprs, counts, kept, l);
                    lemma_stored_below(exprs, counts, kept.union(left.to_set()), r);
                    lemma_join_picked(exprs, counts, kept, left, right, 2);
                    let both = left + right;
                    assert forall|i: int| 0 <= i < both.len() implies #[trigger] both[i] < n by {
                        if i < left.len() {
                            assert(both[i] == left[i]);
                        } else {
                            assert(both[i] == right[i - left.len()]);
                        }
                    }
                    if counts[n as int] >= 2 {
                        let last = seq![n];
                        assert(!kept.union(both.to_set()).contains(n)) by {
                            if both.contains(n) {
                                let i = choose|i: int| 0 <= i < both.len() && both[i] == n;
                                assert(both[i] < n);
                            }
                        }
                        assert(all_picked_well(exprs, counts, kept.union(both.to_set()), last, 2));
                        lemma_join_picked(exprs, counts, kept, both, last, 2);
                        let all = both + last;
                        assert forall|i: int| 0 <= i < all.len() implies #[trigger] all[i]
                            <= n by {
                            if i < both.len() {
                                assert(all[i] == both[i]);
                            }
                        }
                    }
                }
            },
            _ => {},
        }
    }
}

/// What one walk picks: operations referred to at least twice that were not
/// kept before, none of them twice.
pub proof fn lemma_picked_below(
    exprs: Seq<CircuitExpression>,
    counts: Seq<usize>,
    kept: Set<usize>,
    n: usize,
    k: usize,
)
    ensures
        all_picked_well(exprs, counts, kept, picked_below(exprs, counts, kept, n, k), 2),
        picked_below(exprs, counts, kept, n, k).no_duplicates(),
    decreases n,
{
    if n < exprs.len() && n < counts.len() && !kept.contains(n) {
        match exprs[n as int] {
            CircuitExpression::BinaryOperation(_, l, r) => {
                if l < n && r < n {
                    if counts[n as int] < k {
                        let left = picked_below(exprs, counts, kept, l, k);
                        lemma_picked_below(exprs, counts, kept, l, k);
                        lemma_picked_below(exprs, counts, kept.union(left.to_set()), r, k);
                        lemma_join_picked(
                            exprs,
                            counts,
                            kept,
                            left,
                            picked_below(exprs, counts, kept.union(left.to_set()), r, k),
                            2,
                        );
                    } else {
                        lemma_stored_below(exprs, counts, kept, n);
                    }
                }
            },
            _ => {},
        }
    }
}

/// What one pass picks: operations referred to at least twice that were not
/// kept before, none of them twice.
pub proof fn lemma_picked_for_count(
    exprs: Seq<CircuitExpression>,
    counts: Seq<usize>,
    kept: Set<usize>,
    roots: Seq<usize>,
    k: usize,
)
    ensures
        all_picked_well(exprs, counts, kept, picked_for_count(exprs, counts, kept, roots, k), 2),
        picked_for_count(exprs, counts, kept, roots, k).no_duplicates(),
    decreases roots.len(),
{
    if roots.len() > 0 {
        let first = picked_below(exprs, counts, kept, roots[0], k);
        lemma_picked_below(exprs, counts, kept, roots[0], k);
        lemma_picked_for_count(exprs, counts, kept.union(first.to_set()), roots.drop_first(), k);
        lemma_join_picked(
            exprs,
            counts,
            kept,
            first,
            picked_for_count(exprs, counts, kept.union(first.to_set()), roots.drop_first(), k),
            2,
        );
    }
}

/// What all passes pick: operations referred to at least twice that were
/// not kept before, none of them twice.
pub proof fn lemma_picked_for_counts(
    exprs: Seq<CircuitExpression>,
    counts: Seq<usize>,
    kept: Set<usize>,
    roots: Seq<usize>,
    ks: Seq<usize>,
)
    ensures
        all_picked_well(exprs, counts, kept, picked_for_counts(exprs, counts, kept, roots, ks), 2),
        picked_for_counts(exprs, counts, kept, roots, ks).no_duplicates(),
    decreases ks.len(),
{
    if ks.len() > 0 {
        let first = picked_for_count(exprs, counts, kept, roots, ks[0]);
        let rest = picked_for_counts(
            exprs,
            counts,
            kept.union(first.to_set()),
            roots,
            ks.drop_first(),
        );
        lemma_picked_for_count(exprs, counts, kept, roots, ks[0]);
        lemma_picked_for_counts(exprs, counts, kept.union(first.to_set()), roots, ks.drop_first());
        lemma_join_picked(exprs, counts, kept, first, rest, 2);
    }
}

/// Every shared node is an operation of the graph that is referred to at
/// least twice, and no node is shared twice, so each is computed and kept
/// exactly once.
pub proof fn lemma_shared_nodes(exprs: Seq<CircuitExpression>, roots: Seq<usize>)
    ensures
        shared_nodes(exprs, roots).no_duplicates(),
        forall|i: int|
            0 <= i < shared_nodes(exprs, roots).len() ==> {
                &&& (#[trigger] shared_nodes(exprs, roots)[i]) < exprs.len()
                &&& exprs[shared_nodes(exprs, roots)[i] as int] is BinaryOperation
                &&& reference_count(exprs, roots, shared_nodes(exprs, roots)[i] as int) >= 2
            },
{
    let counts = reference_counts_of(exprs, roots);
    let ks = relevant_counts_of(counts);
    lemma_picked_for_counts(exprs, counts, Set::<usize>::empty(), roots, ks);
    let shared = shared_nodes(exprs, roots);
    assert forall|i: int| 0 <= i < shared.len() implies {
        &&& (#[trigger] shared[i]) < exprs.len()
        &&& exprs[shared[i] as int] is BinaryOperation
        &&& reference_count(exprs, roots, shared[i] as int) >= 2
    } by {
        assert(counts[shared[i] as int] >= 2);
    }
}

/// Every shared node is a node of the graph.
pub proof fn lemma_shared_nodes_in_range(exprs: Seq<CircuitExpression>, roots: Seq<usize>)
    ensures
        forall|i: int|
            0 <= i < shared_nodes(exprs, roots).len() ==> (#[trigger] shared_nodes(exprs, roots)[i])
                < exprs.len(),
{
    lemma_shared_nodes(exprs, roots);
}

/// Some sequence holds the values above 1 of `s` in strictly descending
/// order, so the relevant counts are such a sequence.
pub proof fn lemma_relevant_counts_exist(s: Seq<usize>)
    ensures
        is_relevant_counts(s, relevant_counts_of(s)),
{
    let r = descending_from(s, s.len() as int, usize::MAX);
    lemma_descending_from(s, s.len() as int, usize::MAX);
    assert(is_relevant_counts(s, r)) by {
        assert forall|c: usize| r.contains(c) <==> (c > 1 && s.contains(c)) by {
            if c > 1 && s.contains(c) {
                let j = choose|j: int| 0 <= j < s.len() && s[j] == c;
                assert(0 <= j < s.len() && s[j] == c);
            }
        }
    }
}

/// The largest value of the first `n` entries of `s` that is above 1 and at
/// most `bound`, if there is one.
pub open spec fn largest_up_to(s: Seq<usize>, n: int, bound: usize) -> Option<usize>
    decreases n,
{
    if n <= 0 {
        None
    } else {
        let rest = largest_up_to(s, n - 1, bound);
        let v = s[n - 1];
        if 1 < v <= bound && (rest.is_none() || rest.unwrap() < v) {
            Some(v)
        } else {
            rest
        }
    }
}

/// The values above 1 and at most `bound` among the first `n` entries of
/// `s`, each once, largest first.
pub open spec fn descending_from(s: Seq<usize>, n: int, bound: usize) -> Seq<usize>
    decreases bound,
{
    match largest_up_to(s, n, bound) {
        None => Seq::<usize>::empty(),
        Some(v) => {
            if 1 < v <= bound {
                seq![v] + descending_from(s, n, (v - 1) as usize)
            } else {
                Seq::<usize>::empty()
            }
        },
    }
}

/// What `largest_up_to` finds is the largest value in range, if there is
/// one.
pub proof fn lemma_largest_up_to(s: Seq<usize>, n: int, bound: usize)
    requires
        0 <= n <= s.len(),
    ensures
        match largest_up_to(s, n, bound) {
            None => forall|j: int| 0 <= j < n ==> !(1 < #[trigger] s[j] && s[j] <= bound),
            Some(v) => {
                &&& 1 < v <= bound
                &&& exists|j: int| 0 <= j < n && s[j] == v
                &&& forall|j: int| 0 <= j < n && 1 < #[trigger] s[j] && s[j] <= bound ==> s[j] <= v
            },
        },
    decreases n,
{
    if n > 0 {
        lemma_largest_up_to(s, n - 1, bound);
        let rest = largest_up_to(s, n - 1, bound);
        let v = s[n - 1];
        if 1 < v <= bound && (rest.is_none() || rest.unwrap() < v) {
            assert(s[n - 1] == v);
        } else if rest.is_some() {
            let j = choose|j: int| 0 <= j < n - 1 && s[j] == rest.unwrap();
            assert(0 <= j < n && s[j] == rest.unwrap());
        }
    }
}

/// `descending_from` holds the values in range, each once, largest first.
pub proof fn lemma_descending_from(s: Seq<usize>, n: int, bound: usize)
    requires
        0 <= n <= s.len(),
    ensures
        strictly_descending(descending_from(s, n, bound)),
        forall|c: usize|
            descending_from(s, n, bound).contains(c) <==> (1 < c <= bound && exists|j: int|
                0 <= j < n && s[j] == c),
    decreases bound,
{
    lemma_largest_up_to(s, n, bound);
    let d = descending_from(s, n, bound);
    match largest_up_to(s, n, bound) {
        None => {
            assert forall|c: usize| d.contains(c) <==> (1 < c <= bound && exists|j: int|
                0 <= j < n && s[j] == c) by {
                if 1 < c <= bound && exists|j: int| 0 <= j < n && s[j] == c {
                    let j = choose|j: int| 0 <= j < n && s[j] == c;
                    assert(!(1 < s[j] <= bound));
                }
            }
        },
        Some(v) => {
            let tail = descending_from(s, n, (v - 1) as usize);
            lemma_descending_from(s, n, (v - 1) as usize);
            assert(d == seq![v] + tail);
            assert forall|i: int, j: int| 0 <= i < j < d.len() implies d[i] > d[j] by {
                assert(d[j] == tail[j - 1]);
                assert(tail.contains(tail[j - 1]));
                if i > 0 {
                    assert(d[i] == tail[i - 1]);
                }
            }
            assert forall|c: usize| d.contains(c) <==> (1 < c <= bound && exists|j: int|
                0 <= j < n && s[j] == c) by {
                if d.contains(c) {
                    let i = choose|i: int| 0 <= i < d.len() && d[i] == c;
                    if i > 0 {
                        assert(tail[i - 1] == c);
                        assert(tail.contains(c));
                    }
                }
                if 1 < c <= bound && exists|j: int| 0 <= j < n && s[j] == c {
                    let j = choose|j: int| 0 <= j < n && s[j] == c;
                    assert(s[j] <= v);
                    if c == v {
                        assert(d[0] == c);
                    } else {
                        assert(tail.contains(c));
                        let i = choose|i: int| 0 <= i < tail.len() && tail[i] == c;
                        assert(d[i + 1] == c);
                    }
                }
            }
        },
    }
}

/// A batch without constraints shares nothing.
pub proof fn lemma_no_roots_no_sharing(
    exprs: Seq<CircuitExpression>,
    counts: Seq<usize>,
    kept: Set<usize>,
    ks: Seq<usize>,
)
    ensures
        picked_for_counts(exprs, counts, kept, Seq::<usize>::empty(), ks) == Seq::<usize>::empty(),
    decreases ks.len(),
{
    if ks.len() > 0 {
        let first = picked_for_count(exprs, counts, kept, Seq::<usize>::empty(), ks[0]);
        assert(first == Seq::<usize>::empty());
        assert(kept.union(first.to_set()) =~= kept);
        lemma_no_roots_no_sharing(exprs, counts, kept, ks.drop_first());
        assert(first + picked_for_counts(
            exprs,
            counts,
            kept,
            Seq::<usize>::empty(),
            ks.drop_first(),
        ) =~= Seq::<usize>::empty());
    }
}

/// Appends to `picked` the operations at and below `n` that are referred to
/// at least twice and not kept yet, each after those below it, and takes
/// them into `kept`.
fn pick_all_below(
    circuits: &Multicircuit,
    counts: &Vec<usize>,
    kept: &mut HashSet<usize>,
    picked: &mut Vec<usize>,
    n: usize,
)
    requires
        circuits.wf(),
        counts@.len() == circuits.expressions@.len(),
        n < circuits.expressions@.len(),
    ensures
        final(picked)@ == old(picked)@ + stored_below(
            circuits.expressions@,
            counts@,
            old(kept)@,
            n,
        ),
        final(kept)@ == old(kept)@.union(
            stored_below(circuits.expressions@, counts@, old(kept)@, n).to_set(),
        ),
    decreases n,
{
    let ghost exprs = circuits.expressions@;
    let ghost kept_0 = kept@;
    let ghost picked_0 = picked@;
    if kept.contains(&n) {
        assert(kept_0.union(Seq::<usize>::empty().to_set()) =~= kept_0);
        assert(picked_0 + Seq::<usize>::empty() =~= picked_0);
        return ;
    }
    assert(exprs[n as int].fits_at(n as int));
    match circuits.expressions[n] {
        CircuitExpression::BinaryOperation(_, lhs, rhs) => {
            pick_all_below(circuits, counts, kept, picked, lhs);
            pick_all_below(circuits, counts, kept, picked, rhs);
            let ghost left = stored_below(exprs, counts@, kept_0, lhs);
            let ghost right = stored_below(exprs, counts@, kept_0.union(left.to_set()), rhs);
            proof {
                lemma_to_set_concat(left, right);
                assert(kept_0.union(left.to_set()).union(right.to_set()) =~= kept_0.union(
                    (left + right).to_set(),
                ));
                assert((picked_0 + left) + right =~= picked_0 + (left + right));
            }
            if counts[n] >= 2 {
                kept.insert(n);
                picked.push(n);
                proof {
                    let one = seq![n];
                    lemma_to_set_concat(left + right, one);
                    assert(one.to_set() =~= Set::<usize>::empty().insert(n)) by {
                        assert(one[0] == n);
                        assert forall|x: usize| one.to_set().contains(x) <==> x == n by {
                            if x == n {
                                assert(one.contains(one[0]));
                            }
                        }
                    }
                    assert(kept@ =~= kept_0.union((left + right + one).to_set()));
                    assert(picked@ =~= picked_0 + (left + right + one));
                }
            }
        },
        _ => {
            assert(kept_0.union(Seq::<usize>::empty().to_set()) =~= kept_0);
            assert(picked_0 + Seq::<usize>::empty() =~= picked_0);
        },
    }
}

/// Appends to `picked` the nodes that the pass for `k` picks on a walk from
/// node `n`, and takes them into `kept`.
fn pick_below(
    circuits: &Multicircuit,
    counts: &Vec<usize>,
    kept: &mut HashSet<usize>,
    picked: &mut Vec<usize>,
    n: usize,
    k: usize,
)
    requires
        circuits.wf(),
        counts@.len() == circuits.expressions@.len(),
        n < circuits.expressions@.len(),
    ensures
        final(picked)@ == old(picked)@ + picked_below(
            circuits.expressions@,
            counts@,
            old(kept)@,
            n,
            k,
        ),
        final(kept)@ == old(kept)@.union(
            picked_below(circuits.expressions@, counts@, old(kept)@, n, k).to_set(),
        ),
    decreases n,
{
    let ghost exprs = circuits.expressions@;
    let ghost kept_0 = kept@;
    let ghost picked_0 = picked@;
    if kept.contains(&n) {
        assert(kept_0.union(Seq::<usize>::empty().to_set()) =~= kept_0);
        assert(picked_0 + Seq::<usize>::empty() =~= picked_0);
        return ;
    }
    assert(exprs[n as int].fits_at(n as int));
    match circuits.expressions[n] {
        CircuitExpression::BinaryOperation(_, lhs, rhs) => {
            if counts[n] < k {
                pick_below(circuits, counts, kept, picked, lhs, k);
                pick_below(circuits, counts, kept, picked, rhs, k);
                proof {
                    let left = picked_below(exprs, counts@, kept_0, lhs, k);
                    let right = picked_below(exprs, counts@, kept_0.union(left.to_set()), rhs, k);
                    lemma_to_set_concat(left, right);
                    assert(kept_0.union(left.to_set()).union(right.to_set()) =~= kept_0.union(
                        (left + right).to_set(),
                    ));
                    assert((picked_0 + left) + right =~= picked_0 + (left + right));
                }
            } else {
                pick_all_below(circuits, counts, kept, picked, n);
            }
        },
        _ => {
            assert(kept_0.union(Seq::<usize>::empty().to_set()) =~= kept_0);
            assert(picked_0 + Seq::<usize>::empty() =~= picked_0);
        },
    }
}

/// Appends to `picked` the nodes that the pass for `k` picks, walking from
/// every constraint in turn.
fn pick_for_count(
    circuits: &Multicircuit,
    counts: &Vec<usize>,
    kept: &mut HashSet<usize>,
    picked: &mut Vec<usize>,
    k: usize,
)
    requires
        circuits.wf(),
        counts@.len() == circuits.expressions@.len(),
    ensures
        final(picked)@ == old(picked)@ + picked_for_count(
            circuits.expressions@,
            counts@,
            old(kept)@,
            circuits.roots@,
            k,
        ),
        final(kept)@ == old(kept)@.union(
            picked_for_count(circuits.expressions@, counts@, old(kept)@, circuits.roots@, k).to_set(),
        ),
{
    let ghost exprs = circuits.expressions@;
    let ghost roots = circuits.roots@;
    let ghost kept_0 = kept@;
    let ghost picked_0 = picked@;
    let ghost mut done = Seq::<usize>::empty();
    let mut i: usize = 0;
    proof {
        assert(roots.skip(0) =~= roots);
        assert(kept_0.union(done.to_set()) =~= kept_0);
        assert(picked_0 + done =~= picked_0);
        assert(done + picked_for_count(exprs, counts@, kept_0, roots, k) =~= picked_for_count(
            exprs,
            counts@,
            kept_0,
            roots,
            k,
        ));
    }
    while i < circuits.roots.len()
        invariant
            circuits.wf(),
            counts@.len() == circuits.expressions@.len(),
            exprs == circuits.expressions@,
            roots == circuits.roots@,
            i <= roots.len(),
            kept@ == kept_0.union(done.to_set()),
            picked@ == picked_0 + done,
            picked_for_count(exprs, counts@, kept_0, roots, k) == done + picked_for_count(
                exprs,
                counts@,
                kept@,
                roots.skip(i as int),
                k,
            ),
        decreases roots.len() - i,
    {
        let ghost now = kept@;
        let root = circuits.roots[i];
        pick_below(circuits, counts, kept, picked, root, k);
        proof {
            let rest = roots.skip(i as int);
            let first = picked_below(exprs, counts@, now, root, k);
            assert(rest[0] == root);
            assert(rest.drop_first() =~= roots.skip(i + 1));
            lemma_to_set_concat(done, first);
            assert(kept_0.union(done.to_set()).union(first.to_set()) =~= kept_0.union(
                (done + first).to_set(),
            ));
            assert((picked_0 + done) + first =~= picked_0 + (done + first));
            assert(done + (first + picked_for_count(
                exprs,
                counts@,
                now.union(first.to_set()),
                roots.skip(i + 1),
                k,
            )) =~= (done + first) + picked_for_count(
                exprs,
                counts@,
                now.union(first.to_set()),
                roots.skip(i + 1),
                k,
            ));
            done = done + first;
        }
        i = i + 1;
    }
    proof {
        assert(roots.skip(i as int) =~= Seq::<usize>::empty());
        assert(done + Seq::<usize>::empty() =~= done);
    }
}

/// The shared nodes of the batch, in the order in which they are to be
/// computed.
pub fn shared_nodes_in_order(circuits: &Multicircuit) -> (r: Vec<usize>)
    requires
        circuits.wf(),
        countable(circuits.expressions@, circuits.roots@),
    ensures
        r@ == shared_nodes(circuits.expressions@, circuits.roots@),
{
    let counts = reference_counts(circuits);
    let relevant = relevant_ref_counts(&counts);
    let ghost exprs = circuits.expressions@;
    let ghost roots = circuits.roots@;
    let ghost ks = relevant@;
    let mut kept: HashSet<usize> = HashSet::new();
    let mut picked: Vec<usize> = Vec::new();
    let mut i: usize = 0;
    proof {
        assert(ks.skip(0) =~= ks);
        assert(picked@ + picked_for_counts(exprs, counts@, kept@, roots, ks) =~= picked_for_counts(
            exprs,
            counts@,
            kept@,
            roots,
            ks,
        ));
    }
    while i < relevant.len()
        invariant
            circuits.wf(),
            counts@.len() == circuits.expressions@.len(),
            exprs == circuits.expressions@,
            roots == circuits.roots@,
            ks == relevant@,
            i <= ks.len(),
            kept@ == picked@.to_set(),
            picked_for_counts(exprs, counts@, Set::<usize>::empty(), roots, ks) == picked@
                + picked_for_counts(exprs, counts@, kept@, roots, ks.skip(i as int)),
        decreases ks.len() - i,
    {
        let ghost now = kept@;
        let ghost done = picked@;
        let k = relevant[i];
        pick_for_count(circuits, &counts, &mut kept, &mut picked, k);
        proof {
            let rest = ks.skip(i as int);
            let first = picked_for_count(exprs, counts@, now, roots, k);
            assert(rest[0] == k);
            assert(rest.drop_first() =~= ks.skip(i + 1));
            lemma_to_set_concat(done, first);
            assert(done + (first + picked_for_counts(
                exprs,
                counts@,
                now.union(first.to_set()),
                roots,
                ks.skip(i + 1),
            )) =~= (done + first) + picked_for_counts(
                exprs,
                counts@,
                now.union(first.to_set()),
                roots,
                ks.skip(i + 1),
            ));
        }
        i = i + 1;
    }
    proof {
        assert(ks.skip(i as int) =~= Seq::<usize>::empty());
        assert(picked@ + Seq::<usize>::empty() =~= picked@);
    }
    picked
}

} // verus!
