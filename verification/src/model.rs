//! The mathematical model: a grammar as a map from non-terminals to their alternatives,
//! what it means for one to be acyclic, which symbols reach which, and how many
//! sentences a symbol derives.

use vstd::prelude::*;

verus! {

/// A symbol is its text. A quoted text is a terminal, any other a non-terminal.
pub type Symbol = Seq<char>;

/// A grammar maps each known non-terminal to its alternatives, in the order they were added.
pub type Grammar = Map<Seq<char>, Seq<Seq<Seq<char>>>>;

/// `r` ranks `g`: ranks of known non-terminals stay below `bound`, and each known
/// non-terminal ranks above every known non-terminal that one of its alternatives names.
pub open spec fn ranked(g: Grammar, r: spec_fn(Symbol) -> nat, bound: nat) -> bool {
    &&& forall|k: Symbol| #[trigger] g.contains_key(k) ==> r(k) < bound
    &&& forall|k: Symbol, i: int, j: int|
        g.contains_key(k) && 0 <= i < g[k].len() && 0 <= j < g[k][i].len() && g.contains_key(
            #[trigger] g[k][i][j],
        ) ==> r(g[k][i][j]) < r(k)
}

/// `r` ranks `g` under some bound.
pub open spec fn ranks(g: Grammar, r: spec_fn(Symbol) -> nat) -> bool {
    exists|bound: nat| ranked(g, r, bound)
}

/// No non-terminal of `g` can be rewritten into a sequence that names it again.
pub open spec fn acyclic(g: Grammar) -> bool {
    exists|r: spec_fn(Symbol) -> nat| ranks(g, r)
}

/// Some ranking of `g`, where it has one.
pub open spec fn ranking(g: Grammar) -> spec_fn(Symbol) -> nat {
    choose|r: spec_fn(Symbol) -> nat| ranks(g, r)
}

/// How deep rewriting can go below `s`: nothing for a symbol that the grammar does not know.
pub open spec fn level(g: Grammar, s: Symbol) -> nat {
    if g.contains_key(s) {
        ranking(g)(s) + 1
    } else {
        0
    }
}

/// The level of a known non-terminal is above that of each symbol in its alternatives.
pub proof fn lemma_level_decreases(g: Grammar, k: Symbol, i: int, j: int)
    requires
        acyclic(g),
        g.contains_key(k),
        0 <= i < g[k].len(),
        0 <= j < g[k][i].len(),
    ensures
        level(g, g[k][i][j]) < level(g, k),
{
    let r = ranking(g);
    assert(ranks(g, r));
    let bound = choose|bound: nat| ranked(g, r, bound);
    assert(ranked(g, r, bound));
}

/// `s` is `t`, or rewriting `s` can produce a sequence that holds `t`.
pub open spec fn reaches(g: Grammar, s: Symbol, t: Symbol) -> bool
    decreases level(g, s),
    when acyclic(g)
    via reaches_decreases
{
    s == t || (g.contains_key(s) && exists|i: int, j: int|
        0 <= i < g[s].len() && 0 <= j < g[s][i].len() && reaches(g, #[trigger] g[s][i][j], t))
}

#[via_fn]
proof fn reaches_decreases(g: Grammar, s: Symbol, t: Symbol) {
    assert forall|i: int, j: int|
        g.contains_key(s) && 0 <= i < g[s].len() && 0 <= j < g[s][i].len() implies level(
        g,
        #[trigger] g[s][i][j],
    ) < level(g, s) by {
        lemma_level_decreases(g, s, i, j);
    }
}

/// Some symbol of `a` reaches `t`.
pub open spec fn reaches_any(g: Grammar, a: Seq<Symbol>, t: Symbol) -> bool {
    exists|j: int| 0 <= j < a.len() && #[trigger] reaches(g, a[j], t)
}

/// The number of sentences that `s` derives: one for a symbol that the grammar does not
/// know, else the sum over its alternatives of the product over their symbols.
pub open spec fn count(g: Grammar, s: Symbol) -> nat
    decreases level(g, s), 2nat, 0nat,
    when acyclic(g)
{
    if g.contains_key(s) {
        count_alts(g, s, g[s].len())
    } else {
        1
    }
}

/// The sum of the weights of the first `n` alternatives of `s`.
pub open spec fn count_alts(g: Grammar, s: Symbol, n: nat) -> nat
    decreases level(g, s), 1nat, n,
    when acyclic(g)
{
    if n == 0 || !g.contains_key(s) || n > g[s].len() {
        0
    } else {
        count_alts(g, s, (n - 1) as nat) + count_syms(g, s, n - 1, g[s][n - 1].len())
    }
}

/// The product of the counts of the first `m` symbols of alternative `i` of `s`.
pub open spec fn count_syms(g: Grammar, s: Symbol, i: int, m: nat) -> nat
    decreases level(g, s), 0nat, m,
    when acyclic(g)
    via count_syms_decreases
{
    if m == 0 || !g.contains_key(s) || !(0 <= i < g[s].len()) || m > g[s][i].len() {
        1
    } else {
        count_syms(g, s, i, (m - 1) as nat) * count(g, g[s][i][m - 1])
    }
}

#[via_fn]
proof fn count_syms_decreases(g: Grammar, s: Symbol, i: int, m: nat) {
    if !(m == 0 || !g.contains_key(s) || !(0 <= i < g[s].len()) || m > g[s][i].len()) {
        lemma_level_decreases(g, s, i, m - 1);
    }
}

/// `g` with `a` added as the last alternative of `n`.
pub open spec fn extend(g: Grammar, n: Symbol, a: Seq<Symbol>) -> Grammar {
    g.insert(
        n,
        if g.contains_key(n) {
            g[n].push(a)
        } else {
            seq![a]
        },
    )
}

/// The rank that `x` gets when an alternative is added to `n`: what reaches `n` moves above
/// everything that was ranked before.
pub open spec fn lifted_rank(
    g: Grammar,
    r: spec_fn(Symbol) -> nat,
    bound: nat,
    n: Symbol,
    x: Symbol,
) -> nat {
    if x == n && !g.contains_key(n) {
        bound
    } else if reaches(g, x, n) {
        r(x) + bound + 1
    } else {
        r(x)
    }
}

/// A known non-terminal reaches whatever a symbol of one of its alternatives reaches.
pub proof fn lemma_reaches_step(g: Grammar, k: Symbol, i: int, j: int, t: Symbol)
    requires
        acyclic(g),
        g.contains_key(k),
        0 <= i < g[k].len(),
        0 <= j < g[k][i].len(),
        reaches(g, g[k][i][j], t),
    ensures
        reaches(g, k, t),
{
    assert(reaches(g, g[k][i][j], t));
}

/// An alternative whose symbols do not reach `n` can be added to `n`: the grammar stays
/// acyclic.
pub proof fn lemma_extend_acyclic(g: Grammar, n: Symbol, a: Seq<Symbol>)
    requires
        acyclic(g),
        !reaches_any(g, a, n),
    ensures
        acyclic(extend(g, n, a)),
{
    let r = ranking(g);
    assert(ranks(g, r));
    let b = choose|b: nat| ranked(g, r, b);
    assert(ranked(g, r, b));
    let g2 = extend(g, n, a);
    let r2 = |x: Symbol| lifted_rank(g, r, b, n, x);
    let b2: nat = 2 * b + 2;
    assert(reaches(g, n, n));
    assert forall|k: Symbol| #[trigger] g2.contains_key(k) implies r2(k) < b2 by {
        if k != n {
            assert(g.contains_key(k));
        }
    }
    assert forall|k: Symbol, i: int, j: int|
        g2.contains_key(k) && 0 <= i < g2[k].len() && 0 <= j < g2[k][i].len() && g2.contains_key(
            #[trigger] g2[k][i][j],
        ) implies r2(g2[k][i][j]) < r2(k) by {
        let s = g2[k][i][j];
        if k == n {
            if g.contains_key(n) && i < g[n].len() {
                assert(g2[k][i] == g[n][i]);
                assert(s == g[n][i][j]);
                if s == n {
                    assert(r(g[n][i][j]) < r(n));
                }
                assert(g.contains_key(s));
                assert(r(g[n][i][j]) < r(n));
            } else {
                assert(g2[k][i] == a);
                assert(!reaches(g, a[j], n));
                assert(s != n);
                assert(g.contains_key(s));
            }
        } else {
            assert(g.contains_key(k));
            assert(g2[k] == g[k]);
            assert(s == g[k][i][j]);
            if s == n {
                lemma_reaches_step(g, k, i, j, n);
                if g.contains_key(n) {
                    assert(r(g[k][i][j]) < r(k));
                }
            } else {
                assert(g.contains_key(s));
                assert(r(g[k][i][j]) < r(k));
                if reaches(g, s, n) {
                    lemma_reaches_step(g, k, i, j, n);
                }
            }
        }
    }
    assert(ranked(g2, r2, b2));
    assert(ranks(g2, r2));
}

} // verus!
