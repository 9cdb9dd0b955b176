//! Weights: what a table of counts gives an alternative and a list of alternatives, and
//! how the counts of a grammar relate to them.

use vstd::prelude::*;
use crate::model::{Symbol, Grammar, acyclic, count, count_alts, count_syms, lemma_level_decreases,
    level};

verus! {

/// What the table holds for `s`, and one for a symbol that it does not hold.
pub open spec fn table_count(t: Map<Symbol, nat>, s: Symbol) -> nat {
    if t.contains_key(s) {
        t[s]
    } else {
        1
    }
}

/// The weight of an alternative: the product of the counts of its symbols.
pub open spec fn weight(t: Map<Symbol, nat>, a: Seq<Symbol>) -> nat
    decreases a.len(),
{
    if a.len() == 0 {
        1
    } else {
        weight(t, a.drop_last()) * table_count(t, a.last())
    }
}

/// The sum of the weights of the alternatives.
pub open spec fn total(t: Map<Symbol, nat>, alts: Seq<Seq<Symbol>>) -> nat
    decreases alts.len(),
{
    if alts.len() == 0 {
        0
    } else {
        total(t, alts.drop_last()) + weight(t, alts.last())
    }
}

/// Every count in the table is at least one.
pub open spec fn positive(t: Map<Symbol, nat>) -> bool {
    forall|k: Symbol| #[trigger] t.contains_key(k) ==> t[k] >= 1
}

/// Every known non-terminal has an alternative.
pub open spec fn inhabited(g: Grammar) -> bool {
    forall|k: Symbol| #[trigger] g.contains_key(k) ==> g[k].len() >= 1
}

/// The counts of all known non-terminals of `g`.
pub open spec fn count_table(g: Grammar) -> Map<Symbol, nat> {
    Map::new(|k: Symbol| g.contains_key(k), |k: Symbol| count(g, k))
}

/// With positive counts, a weight is at least one.
pub proof fn lemma_weight_positive(t: Map<Symbol, nat>, a: Seq<Symbol>)
    requires
        positive(t),
    ensures
        weight(t, a) >= 1,
    decreases a.len(),
{
    if a.len() > 0 {
        lemma_weight_positive(t, a.drop_last());
        let x = weight(t, a.drop_last());
        let y = table_count(t, a.last());
        assert(x * y >= 1) by (nonlinear_arith)
            requires
                x >= 1,
                y >= 1,
        ;
    }
}

/// One more symbol multiplies the weight by its count.
pub proof fn lemma_weight_step(t: Map<Symbol, nat>, a: Seq<Symbol>, m: int)
    requires
        0 <= m < a.len(),
    ensures
        weight(t, a.take(m + 1)) == weight(t, a.take(m)) * table_count(t, a[m]),
{
    assert(a.take(m + 1).drop_last() =~= a.take(m));
}

/// One more alternative adds its weight to the total.
pub proof fn lemma_total_step(t: Map<Symbol, nat>, alts: Seq<Seq<Symbol>>, n: int)
    requires
        0 <= n < alts.len(),
    ensures
        total(t, alts.take(n + 1)) == total(t, alts.take(n)) + weight(t, alts[n]),
{
    assert(alts.take(n + 1).drop_last() =~= alts.take(n));
}

/// With positive counts, the weight of a prefix is at most the weight of the whole.
pub proof fn lemma_weight_prefix(t: Map<Symbol, nat>, a: Seq<Symbol>, m: int)
    requires
        positive(t),
        0 <= m <= a.len(),
    ensures
        weight(t, a.take(m)) <= weight(t, a),
    decreases a.len() - m,
{
    if m == a.len() {
        assert(a.take(m) =~= a);
    } else {
        lemma_weight_prefix(t, a, m + 1);
        lemma_weight_step(t, a, m);
        lemma_weight_positive(t, a.take(m));
        let x = weight(t, a.take(m));
        let y = table_count(t, a[m]);
        assert(x * y >= x) by (nonlinear_arith)
            requires
                x >= 1,
                y >= 1,
        ;
    }
}

/// The total of a prefix is at most the total of the whole.
pub proof fn lemma_total_prefix(t: Map<Symbol, nat>, alts: Seq<Seq<Symbol>>, n: int)
    requires
        0 <= n <= alts.len(),
    ensures
        total(t, alts.take(n)) <= total(t, alts),
    decreases alts.len() - n,
{
    if n == alts.len() {
        assert(alts.take(n) =~= alts);
    } else {
        lemma_total_prefix(t, alts, n + 1);
        lemma_total_step(t, alts, n);
    }
}

/// The product over the first `m` symbols of an alternative is its prefix's weight under
/// the grammar's counts.
pub proof fn lemma_count_syms_weight(g: Grammar, s: Symbol, i: int, m: nat)
    requires
        acyclic(g),
        g.contains_key(s),
        0 <= i < g[s].len(),
        m <= g[s][i].len(),
    ensures
        count_syms(g, s, i, m) == weight(count_table(g), g[s][i].take(m as int)),
    decreases m,
{
    if m > 0 {
        lemma_count_syms_weight(g, s, i, (m - 1) as nat);
        lemma_weight_step(count_table(g), g[s][i], m - 1);
        let x = g[s][i][m - 1];
        assert(table_count(count_table(g), x) == count(g, x));
        assert(count_syms(g, s, i, m) == count_syms(g, s, i, (m - 1) as nat) * count(g, x));
    } else {
        assert(g[s][i].take(0).len() == 0);
        assert(count_syms(g, s, i, 0) == 1);
    }
}

/// The sum over the first `n` alternatives is their total under the grammar's counts.
pub proof fn lemma_count_alts_total(g: Grammar, s: Symbol, n: nat)
    requires
        acyclic(g),
        g.contains_key(s),
        n <= g[s].len(),
    ensures
        count_alts(g, s, n) == total(count_table(g), g[s].take(n as int)),
    decreases n,
{
    if n > 0 {
        lemma_count_alts_total(g, s, (n - 1) as nat);
        lemma_total_step(count_table(g), g[s], n - 1);
        lemma_count_syms_weight(g, s, n - 1, g[s][n - 1].len());
        assert(g[s][n - 1].take(g[s][n - 1].len() as int) =~= g[s][n - 1]);
    }
}

/// The count of a known non-terminal is the sum over its alternatives of the product of
/// the counts of their symbols.
pub proof fn lemma_count_is_total(g: Grammar, s: Symbol)
    requires
        acyclic(g),
        g.contains_key(s),
    ensures
        count(g, s) == total(count_table(g), g[s]),
{
    lemma_count_alts_total(g, s, g[s].len());
    assert(g[s].take(g[s].len() as int) =~= g[s]);
}

/// Every symbol derives at least one sentence.
pub proof fn lemma_count_positive(g: Grammar, s: Symbol)
    requires
        acyclic(g),
        inhabited(g),
    ensures
        count(g, s) >= 1,
    decreases level(g, s), 1nat, 0nat,
{
    if g.contains_key(s) {
        let n = g[s].len();
        lemma_count_syms_positive(g, s, n - 1, g[s][n - 1].len());
    }
}

/// Every product of counts is at least one.
pub proof fn lemma_count_syms_positive(g: Grammar, s: Symbol, i: int, m: nat)
    requires
        acyclic(g),
        inhabited(g),
        g.contains_key(s),
        0 <= i < g[s].len(),
        m <= g[s][i].len(),
    ensures
        count_syms(g, s, i, m) >= 1,
    decreases level(g, s), 0nat, m,
{
    if m > 0 {
        lemma_count_syms_positive(g, s, i, (m - 1) as nat);
        lemma_level_decreases(g, s, i, m - 1);
        lemma_count_positive(g, g[s][i][m - 1]);
        let x = count_syms(g, s, i, (m - 1) as nat);
        let y = count(g, g[s][i][m - 1]);
        assert(x * y >= 1) by (nonlinear_arith)
            requires
                x >= 1,
                y >= 1,
        ;
    }
}

/// The counts of an acyclic grammar whose non-terminals all have an alternative are
/// positive.
pub proof fn lemma_count_table_positive(g: Grammar)
    requires
        acyclic(g),
        inhabited(g),
    ensures
        positive(count_table(g)),
{
    assert forall|k: Symbol| #[trigger] count_table(g).contains_key(k) implies count_table(g)[k]
        >= 1 by {
        lemma_count_positive(g, k);
    }
}

/// The weight of one alternative is at most the total.
pub proof fn lemma_total_member(t: Map<Symbol, nat>, alts: Seq<Seq<Symbol>>, i: int)
    requires
        0 <= i < alts.len(),
    ensures
        weight(t, alts[i]) <= total(t, alts),
{
    lemma_total_step(t, alts, i);
    lemma_total_prefix(t, alts, i + 1);
}

} // verus!
