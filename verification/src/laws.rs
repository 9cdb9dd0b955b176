//! What holds of the store and the weights as a whole.

use vstd::prelude::*;
use crate::model::{Symbol, Grammar, acyclic, ranked, ranks, reaches, reaches_any, extend, level,
    lemma_level_decreases, lemma_extend_acyclic, lemma_reaches_step};
use crate::counts::{weight, total, count_table, lemma_total_prefix, lemma_total_step,
    lemma_count_is_total};
use crate::model::count;

verus! {

/// Under any ranking of the grammar with the new alternative, what reached `n` before
/// ranks above `n`.
pub proof fn lemma_reaching_ranks_above(
    g: Grammar,
    n: Symbol,
    a: Seq<Symbol>,
    r: spec_fn(Symbol) -> nat,
    bound: nat,
    x: Symbol,
)
    requires
        acyclic(g),
        ranked(extend(g, n, a), r, bound),
        reaches(g, x, n),
        x != n,
    ensures
        extend(g, n, a).contains_key(x),
        r(n) < r(x),
    decreases level(g, x),
{
    let g2 = extend(g, n, a);
    let (i, j) = choose|i: int, j: int|
        0 <= i < g[x].len() && 0 <= j < g[x][i].len() && reaches(g, #[trigger] g[x][i][j], n);
    let s = g[x][i][j];
    assert(g2[x] == g[x]);
    assert(s == g2[x][i][j]);
    assert(g2.contains_key(n));
    if s != n {
        lemma_level_decreases(g, x, i, j);
        lemma_reaching_ranks_above(g, n, a, r, bound, s);
    }
    assert(r(g2[x][i][j]) < r(x));
}

/// The alternatives that the store turns away are those that would close a cycle: a
/// symbol of `a` reaches `n` exactly where the grammar with `a` added to `n` has a cycle.
pub proof fn lemma_rejected_iff_cycle(g: Grammar, n: Symbol, a: Seq<Symbol>)
    requires
        acyclic(g),
    ensures
        reaches_any(g, a, n) <==> !acyclic(extend(g, n, a)),
{
    let g2 = extend(g, n, a);
    if reaches_any(g, a, n) {
        if acyclic(g2) {
            let r = choose|r: spec_fn(Symbol) -> nat| ranks(g2, r);
            let bound = choose|bound: nat| ranked(g2, r, bound);
            let j = choose|j: int| 0 <= j < a.len() && #[trigger] reaches(g, a[j], n);
            let last = g2[n].len() - 1;
            assert(g2[n][last] == a);
            assert(g2.contains_key(n));
            if a[j] != n {
                lemma_reaching_ranks_above(g, n, a, r, bound, a[j]);
            }
            assert(a[j] == g2[n][last][j]);
            assert(r(g2[n][last][j]) < r(n));
        }
    } else {
        lemma_extend_acyclic(g, n, a);
    }
}

/// Adding an alternative to `n` lets nothing new reach `n`.
pub proof fn lemma_extend_reaches(g: Grammar, n: Symbol, a: Seq<Symbol>, x: Symbol)
    requires
        acyclic(g),
        acyclic(extend(g, n, a)),
        reaches(extend(g, n, a), x, n),
    ensures
        reaches(g, x, n),
    decreases level(extend(g, n, a), x),
{
    let g2 = extend(g, n, a);
    if x != n {
        let (i, j) = choose|i: int, j: int|
            0 <= i < g2[x].len() && 0 <= j < g2[x][i].len() && reaches(
                g2,
                #[trigger] g2[x][i][j],
                n,
            );
        assert(g.contains_key(x));
        assert(g2[x] == g[x]);
        lemma_level_decreases(g2, x, i, j);
        lemma_extend_reaches(g, n, a, g2[x][i][j]);
        lemma_reaches_step(g, x, i, j, n);
    }
}

/// An alternative that was added once can be added again: the non-terminal then ends in
/// the two of them, and under any table they weigh twice what one weighs.
pub proof fn lemma_added_twice(g: Grammar, n: Symbol, a: Seq<Symbol>, t: Map<Symbol, nat>)
    requires
        acyclic(g),
        !reaches_any(g, a, n),
    ensures
        acyclic(extend(g, n, a)),
        !reaches_any(extend(g, n, a), a, n),
        acyclic(extend(extend(g, n, a), n, a)),
        extend(extend(g, n, a), n, a)[n] == extend(g, n, a)[n].push(a),
        extend(g, n, a)[n].last() == a,
        total(t, extend(extend(g, n, a), n, a)[n]) == total(t, extend(g, n, a)[n].drop_last()) + 2
            * weight(t, a),
{
    let g1 = extend(g, n, a);
    lemma_extend_acyclic(g, n, a);
    if reaches_any(g1, a, n) {
        let j = choose|j: int| 0 <= j < a.len() && #[trigger] reaches(g1, a[j], n);
        lemma_extend_reaches(g, n, a, a[j]);
        assert(reaches(g, a[j], n));
    }
    lemma_extend_acyclic(g1, n, a);
    let once = g1[n];
    let twice = once.push(a);
    assert(extend(g1, n, a)[n] == twice);
    assert(twice.drop_last() =~= once);
    assert(total(t, twice) == total(t, twice.drop_last()) + weight(t, twice.last()));
    assert(once.last() == a);
    assert(total(t, once) == total(t, once.drop_last()) + weight(t, once.last()));
}

/// The alternatives lie side by side without overlap: a draw lies in the stretch of one
/// alternative at most.
pub proof fn lemma_pick_unique(
    t: Map<Symbol, nat>,
    alts: Seq<Seq<Symbol>>,
    chosen: nat,
    i: int,
    j: int,
)
    requires
        0 <= i < alts.len(),
        0 <= j < alts.len(),
        total(t, alts.take(i)) <= chosen < total(t, alts.take(i + 1)),
        total(t, alts.take(j)) <= chosen < total(t, alts.take(j + 1)),
    ensures
        i == j,
{
    if i < j {
        lemma_total_prefix(t, alts.take(j), i + 1);
        assert(alts.take(j).take(i + 1) =~= alts.take(i + 1));
    }
    if j < i {
        lemma_total_prefix(t, alts.take(i), j + 1);
        assert(alts.take(i).take(j + 1) =~= alts.take(j + 1));
    }
}

/// Under the counts of the grammar, the stretches of the alternatives of a known
/// non-terminal fill the draws below its count: each is as wide as the product of the
/// counts of its symbols, and the last ends where the count does.
pub proof fn lemma_stretches_fill_count(g: Grammar, n: Symbol, i: int)
    requires
        acyclic(g),
        g.contains_key(n),
        0 <= i < g[n].len(),
    ensures
        total(count_table(g), g[n].take(i + 1)) == total(count_table(g), g[n].take(i)) + weight(
            count_table(g),
            g[n][i],
        ),
        total(count_table(g), g[n].take(0)) == 0,
        total(count_table(g), g[n].take(g[n].len() as int)) == count(g, n),
{
    lemma_total_step(count_table(g), g[n], i);
    lemma_count_is_total(g, n);
    assert(g[n].take(g[n].len() as int) =~= g[n]);
    assert(g[n].take(0).len() == 0);
}

} // verus!
