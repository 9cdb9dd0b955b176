//! The expander: one pass replaces every known non-terminal by one of its alternatives,
//! drawn by weight; passes repeat until nothing changes.

use vstd::prelude::*;
use rand::{Rng, SeedableRng};
use rand::rngs::StdRng;
use crate::model::{Symbol, Grammar, acyclic, level, count, lemma_level_decreases};
use crate::counts::{count_table, weight, total, lemma_weight_step, lemma_weight_prefix,
    lemma_total_step, lemma_total_prefix, lemma_count_is_total, lemma_count_positive};
use crate::store::{symbols_of, Substitution, Substitutions, SubstitutionsMap};
use crate::tokens::TokenMap;
use crate::output::{assemble, sentence, quote_free};
use vstd::string::StringExecFns;

verus! {

/// `rand::rngs::StdRng`, the generator that the draws come from. It is carried through
/// as it is: nothing inside it is seen here.
#[verifier::external_type_specification]
#[verifier::external_body]
pub struct ExStdRng(rand::rngs::StdRng);

/// `rand::Rng::gen_range` on `rng`, from zero up to `total`, which it leaves out. The
/// outcome depends on the state of `rng`: all that is claimed is that it lies below
/// `total`. The call panics on an empty range, so `total` must be positive.
#[verifier::external_body]
fn draw_below(rng: &mut StdRng, total: usize) -> (r: usize)
    requires
        total > 0,
    ensures
        r < total,
{
    rng.gen_range(0, total)
}

/// `rand::SeedableRng::seed_from_u64` for `StdRng`: a generator whose draws follow from
/// `seed` alone. Nothing is claimed of the generator that comes back.
#[verifier::external_body]
fn seeded(seed: u64) -> StdRng {
    StdRng::seed_from_u64(seed)
}

/// What one symbol becomes: the chosen alternative for a known non-terminal, itself
/// otherwise.
pub open spec fn piece(g: Grammar, s: Symbol, choice: int) -> Seq<Symbol> {
    if g.contains_key(s) {
        g[s][choice]
    } else {
        seq![s]
    }
}

/// What a sequence becomes under the given choices, one for each symbol.
pub open spec fn expansion(g: Grammar, syms: Seq<Symbol>, choices: Seq<int>) -> Seq<Symbol>
    decreases syms.len(),
{
    if syms.len() == 0 {
        Seq::empty()
    } else {
        expansion(g, syms.drop_last(), choices.drop_last()) + piece(
            g,
            syms.last(),
            choices.last(),
        )
    }
}

/// One choice for each symbol, and for each known non-terminal one of its alternatives.
pub open spec fn valid_choices(g: Grammar, syms: Seq<Symbol>, choices: Seq<int>) -> bool {
    &&& choices.len() == syms.len()
    &&& forall|i: int|
        0 <= i < syms.len() && g.contains_key(#[trigger] syms[i]) ==> 0 <= choices[i]
            < g[syms[i]].len()
}

/// `out` is what one pass can make of `syms`.
pub open spec fn expands_to(g: Grammar, syms: Seq<Symbol>, out: Seq<Symbol>) -> bool {
    exists|choices: Seq<int>| #[trigger]
        valid_choices(g, syms, choices) && out == expansion(g, syms, choices)
}

/// `b` is what `n` passes can make of `a`.
pub open spec fn derives_in(g: Grammar, a: Seq<Symbol>, b: Seq<Symbol>, n: nat) -> bool
    decreases n,
{
    if n == 0 {
        a == b
    } else {
        exists|mid: Seq<Symbol>|
            derives_in(g, a, mid, (n - 1) as nat) && #[trigger] expands_to(g, mid, b)
    }
}

/// `b` is what some number of passes can make of `a`.
pub open spec fn derives(g: Grammar, a: Seq<Symbol>, b: Seq<Symbol>) -> bool {
    exists|n: nat| derives_in(g, a, b, n)
}

/// No symbol of `syms` is a known non-terminal.
pub open spec fn settled(g: Grammar, syms: Seq<Symbol>) -> bool {
    forall|i: int| 0 <= i < syms.len() ==> !g.contains_key(#[trigger] syms[i])
}

/// The highest level among the symbols.
pub open spec fn height(g: Grammar, syms: Seq<Symbol>) -> nat
    decreases syms.len(),
{
    if syms.len() == 0 {
        0
    } else if level(g, syms.last()) >= height(g, syms.drop_last()) {
        level(g, syms.last())
    } else {
        height(g, syms.drop_last())
    }
}

/// No symbol lies above the height.
pub proof fn lemma_height_bounds(g: Grammar, syms: Seq<Symbol>)
    ensures
        forall|i: int| 0 <= i < syms.len() ==> level(g, #[trigger] syms[i]) <= height(g, syms),
    decreases syms.len(),
{
    if syms.len() > 0 {
        lemma_height_bounds(g, syms.drop_last());
        assert forall|i: int| 0 <= i < syms.len() implies level(g, #[trigger] syms[i]) <= height(
            g,
            syms,
        ) by {
            if i < syms.len() - 1 {
                assert(syms.drop_last()[i] == syms[i]);
            }
        }
    }
}

/// A positive height is the level of one of the symbols.
pub proof fn lemma_height_attained(g: Grammar, syms: Seq<Symbol>) -> (i: int)
    requires
        height(g, syms) > 0,
    ensures
        0 <= i < syms.len(),
        level(g, syms[i]) == height(g, syms),
    decreases syms.len(),
{
    if level(g, syms.last()) >= height(g, syms.drop_last()) {
        syms.len() - 1
    } else {
        let i = lemma_height_attained(g, syms.drop_last());
        assert(syms.drop_last()[i] == syms[i]);
        i
    }
}

/// Where no symbol lies above `d`, neither does the height.
pub proof fn lemma_height_le(g: Grammar, syms: Seq<Symbol>, d: nat)
    requires
        forall|i: int| 0 <= i < syms.len() ==> level(g, #[trigger] syms[i]) <= d,
    ensures
        height(g, syms) <= d,
    decreases syms.len(),
{
    if syms.len() > 0 {
        assert forall|i: int| 0 <= i < syms.drop_last().len() implies level(
            g,
            #[trigger] syms.drop_last()[i],
        ) <= d by {
            assert(syms.drop_last()[i] == syms[i]);
        }
        lemma_height_le(g, syms.drop_last(), d);
        assert(level(g, syms[syms.len() - 1]) <= d);
    }
}

/// One pass lowers every level: what lay at most at `d` lies below `d` afterwards.
pub proof fn lemma_expansion_levels(g: Grammar, syms: Seq<Symbol>, choices: Seq<int>, d: nat)
    requires
        acyclic(g),
        valid_choices(g, syms, choices),
        d >= 1,
        forall|i: int| 0 <= i < syms.len() ==> level(g, #[trigger] syms[i]) <= d,
    ensures
        forall|j: int|
            0 <= j < expansion(g, syms, choices).len() ==> level(
                g,
                #[trigger] expansion(g, syms, choices)[j],
            ) < d,
    decreases syms.len(),
{
    if syms.len() > 0 {
        let front = syms.drop_last();
        let s = syms.last();
        let c = choices.last();
        assert forall|i: int| 0 <= i < front.len() implies level(g, #[trigger] front[i]) <= d by {
            assert(front[i] == syms[i]);
        }
        assert forall|i: int| 0 <= i < front.len() && g.contains_key(
            #[trigger] front[i],
        ) implies 0 <= choices.drop_last()[i] < g[front[i]].len() by {
            assert(front[i] == syms[i]);
        }
        lemma_expansion_levels(g, front, choices.drop_last(), d);
        let head = expansion(g, front, choices.drop_last());
        let out = expansion(g, syms, choices);
        assert(level(g, syms[syms.len() - 1]) <= d);
        assert forall|j: int| 0 <= j < out.len() implies level(g, #[trigger] out[j]) < d by {
            if j < head.len() {
                assert(out[j] == head[j]);
            } else {
                let m = j - head.len();
                assert(out[j] == piece(g, s, c)[m]);
                if g.contains_key(s) {
                    lemma_level_decreases(g, s, c, m);
                }
            }
        }
    }
}

/// One pass leaves a settled sequence as it is.
pub proof fn lemma_expansion_settled(g: Grammar, syms: Seq<Symbol>, choices: Seq<int>)
    requires
        settled(g, syms),
    ensures
        expansion(g, syms, choices) == syms,
    decreases syms.len(),
{
    if syms.len() > 0 {
        let front = syms.drop_last();
        assert forall|i: int| 0 <= i < front.len() implies !g.contains_key(#[trigger] front[i]) by {
            assert(front[i] == syms[i]);
        }
        lemma_expansion_settled(g, front, choices.drop_last());
        assert(!g.contains_key(syms[syms.len() - 1]));
        assert(expansion(g, syms, choices) =~= syms);
    } else {
        assert(expansion(g, syms, choices) =~= syms);
    }
}

/// A sequence that one pass can leave unchanged holds no known non-terminal.
pub proof fn lemma_fixed_point_settled(g: Grammar, syms: Seq<Symbol>)
    requires
        acyclic(g),
        expands_to(g, syms, syms),
    ensures
        settled(g, syms),
{
    let h = height(g, syms);
    lemma_height_bounds(g, syms);
    if h > 0 {
        let choices = choose|choices: Seq<int>| #[trigger]
            valid_choices(g, syms, choices) && syms == expansion(g, syms, choices);
        lemma_expansion_levels(g, syms, choices, h);
        let i = lemma_height_attained(g, syms);
        assert(level(g, expansion(g, syms, choices)[i]) < h);
    } else {
        assert forall|i: int| 0 <= i < syms.len() implies !g.contains_key(#[trigger] syms[i]) by {
            assert(level(g, syms[i]) <= h);
        }
    }
}

impl Substitution {
    /// The weight of this alternative under `token_map`, or nothing where it is more than
    /// a `usize` holds.
    pub fn get_count(&self, token_map: &TokenMap) -> (r: Option<usize>)
        requires
            token_map.wf(),
        ensures
            match r {
                Some(c) => c == weight(token_map@, self@),
                None => weight(token_map@, self@) > usize::MAX,
            },
    {
        let ghost t = token_map@;
        let ghost a = self@;
        proof {
            token_map.lemma_positive();
        }
        let mut count: usize = 1;
        let mut j: usize = 0;
        while j < self.produces.len()
            invariant
                token_map.wf(),
                t == token_map@,
                a == self@,
                crate::counts::positive(t),
                j <= self.produces.len(),
                count == weight(t, a.take(j as int)),
            decreases self.produces.len() - j,
        {
            proof {
                lemma_weight_step(t, a, j as int);
                lemma_weight_prefix(t, a, j + 1);
            }
            let c = token_map.count_for(&self.produces[j]);
            match count.checked_mul(c) {
                None => {
                    return None;
                },
                Some(p) => {
                    count = p;
                },
            }
            j += 1;
        }
        proof {
            assert(a.take(j as int) =~= a);
        }
        Some(count)
    }
}

impl Substitutions {
    /// The sum of the weights of the alternatives under `token_map`, or nothing where it
    /// is more than a `usize` holds.
    pub fn total_count(&self, token_map: &TokenMap) -> (r: Option<usize>)
        requires
            token_map.wf(),
        ensures
            match r {
                Some(c) => c == total(token_map@, self@),
                None => total(token_map@, self@) > usize::MAX,
            },
    {
        let ghost t = token_map@;
        let ghost alts = self@;
        let mut sum: usize = 0;
        let mut i: usize = 0;
        while i < self.options.len()
            invariant
                token_map.wf(),
                t == token_map@,
                alts == self@,
                i <= self.options.len(),
                sum == total(t, alts.take(i as int)),
            decreases self.options.len() - i,
        {
            proof {
                lemma_total_step(t, alts, i as int);
                lemma_total_prefix(t, alts, i + 1);
            }
            match self.options[i].get_count(token_map) {
                None => {
                    return None;
                },
                Some(w) => match sum.checked_add(w) {
                    None => {
                        return None;
                    },
                    Some(v) => {
                        sum = v;
                    },
                },
            }
            i += 1;
        }
        proof {
            assert(alts.take(i as int) =~= alts);
        }
        Some(sum)
    }

    /// The alternative that a draw of `chosen` selects: the alternatives lie side by side
    /// in the order they were added, each as wide as its weight, and the one that holds
    /// `chosen` is taken. Nothing where `chosen` lies beyond them all.
    pub fn pick(&self, token_map: &TokenMap, chosen: usize) -> (r: Option<usize>)
        requires
            token_map.wf(),
        ensures
            match r {
                Some(i) => i < self.options.len() && total(token_map@, self@.take(i as int))
                    <= chosen < total(token_map@, self@.take(i + 1)),
                None => total(token_map@, self@) <= chosen,
            },
    {
        let ghost t = token_map@;
        let ghost alts = self@;
        let mut current: usize = 0;
        let mut i: usize = 0;
        while i < self.options.len()
            invariant
                token_map.wf(),
                t == token_map@,
                alts == self@,
                i <= self.options.len(),
                current == total(t, alts.take(i as int)),
                current <= chosen,
            decreases self.options.len() - i,
        {
            proof {
                lemma_total_step(t, alts, i as int);
            }
            match self.options[i].get_count(token_map) {
                None => {
                    return Some(i);
                },
                Some(w) => match current.checked_add(w) {
                    None => {
                        return Some(i);
                    },
                    Some(next) => {
                        if next > chosen {
                            return Some(i);
                        }
                        current = next;
                    },
                },
            }
            i += 1;
        }
        proof {
            assert(alts.take(i as int) =~= alts);
        }
        None
    }
}

/// Whether the two hold the same symbols in the same order.
pub fn same_symbols(a: &Vec<String>, b: &Vec<String>) -> (r: bool)
    ensures
        r == (symbols_of(a@) == symbols_of(b@)),
{
    if a.len() != b.len() {
        assert(symbols_of(a@).len() != symbols_of(b@).len());
        return false;
    }
    let mut i: usize = 0;
    while i < a.len()
        invariant
            a.len() == b.len(),
            i <= a.len(),
            forall|k: int| 0 <= k < i ==> (#[trigger] a[k])@ == b[k]@,
        decreases a.len() - i,
    {
        if a[i] != b[i] {
            assert(symbols_of(a@)[i as int] != symbols_of(b@)[i as int]);
            return false;
        }
        i += 1;
    }
    assert(symbols_of(a@) =~= symbols_of(b@));
    true
}

impl SubstitutionsMap {
    /// One pass over `symbols`: each known non-terminal gives way to one of its
    /// alternatives, drawn from `rng` by weight; every other symbol stays.
    pub fn apply_substitutions(
        &self,
        token_map: &TokenMap,
        symbols: Vec<String>,
        rng: &mut StdRng,
    ) -> (results: Vec<String>)
        requires
            self.wf(),
            token_map.wf(),
            token_map@ == count_table(self@),
        ensures
            expands_to(self@, symbols_of(symbols@), symbols_of(results@)),
    {
        self.apply_to(token_map, &symbols, rng)
    }

    /// One pass over `symbols`, which are only read.
    pub fn apply_to(&self, token_map: &TokenMap, symbols: &Vec<String>, rng: &mut StdRng) -> (results:
        Vec<String>)
        requires
            self.wf(),
            token_map.wf(),
            token_map@ == count_table(self@),
        ensures
            expands_to(self@, symbols_of(symbols@), symbols_of(results@)),
    {
        let ghost g = self@;
        let ghost t = token_map@;
        let ghost syms = symbols_of(symbols@);
        let mut results: Vec<String> = Vec::new();
        let ghost mut choices: Seq<int> = Seq::empty();
        let mut k: usize = 0;
        while k < symbols.len()
            invariant
                self.wf(),
                token_map.wf(),
                g == self@,
                t == token_map@,
                t == count_table(g),
                syms == symbols_of(symbols@),
                k <= symbols.len(),
                valid_choices(g, syms.take(k as int), choices),
                symbols_of(results@) == expansion(g, syms.take(k as int), choices),
            decreases symbols.len() - k,
        {
            let symbol = &symbols[k];
            let ghost s = symbol@;
            let ghost before = symbols_of(results@);
            let ghost picked: int = 0;
            assert(syms.take(k + 1).drop_last() =~= syms.take(k as int));
            assert(syms.take(k + 1).last() == s);
            match self.position(symbol) {
                Some(idx) => {
                    proof {
                        self.lemma_entry(idx as int);
                        self.lemma_inhabited();
                        lemma_count_is_total(g, s);
                        lemma_count_positive(g, s);
                        assert(t.contains_key(s) && t[s] == count(g, s));
                        assert(token_map.knows(s));
                        token_map.lemma_entry(token_map.index_of(s));
                    }
                    let substitutions = &self.entries[idx].1;
                    let at: usize = match substitutions.total_count(token_map) {
                        Some(total_options) => {
                            let chosen = draw_below(rng, total_options);
                            match substitutions.pick(token_map, chosen) {
                                Some(i) => i,
                                None => {
                                    // The draw lies below the total.
                                    assert(false);
                                    0
                                },
                            }
                        },
                        None => {
                            // The total is the count of the symbol, which the table holds.
                            assert(false);
                            0
                        },
                    };
                    let produces = &substitutions.options[at].produces;
                    let mut m: usize = 0;
                    while m < produces.len()
                        invariant
                            m <= produces.len(),
                            symbols_of(results@) == before + symbols_of(produces@).take(m as int),
                        decreases produces.len() - m,
                    {
                        let ghost earlier = results@;
                        let produced = produces[m].clone();
                        assert(produced@ == symbols_of(produces@)[m as int]);
                        results.push(produced);
                        m += 1;
                        assert(symbols_of(results@) =~= symbols_of(earlier).push(produced@));
                        assert(symbols_of(produces@).take(m as int) =~= symbols_of(
                            produces@,
                        ).take(m - 1).push(produced@));
                        assert(symbols_of(results@) =~= before + symbols_of(produces@).take(
                            m as int,
                        ));
                    }
                    proof {
                        picked = at as int;
                        assert(symbols_of(produces@).take(m as int) =~= g[s][at as int]);
                    }
                },
                None => {
                    results.push(symbol.clone());
                    assert(symbols_of(results@) =~= before + seq![s]);
                },
            }
            proof {
                let longer = choices.push(picked);
                assert(longer.drop_last() =~= choices);
                assert forall|i: int|
                    0 <= i < k + 1 && g.contains_key(
                        #[trigger] syms.take(k + 1)[i],
                    ) implies 0 <= longer[i] < g[syms.take(k + 1)[i]].len() by {
                    if i < k {
                        assert(syms.take(k as int)[i] == syms.take(k + 1)[i]);
                    }
                }
                choices = longer;
            }
            k += 1;
        }
        proof {
            assert(syms.take(k as int) =~= syms);
        }
        results
    }

    /// Passes over `start` until one changes nothing. What comes out holds no known
    /// non-terminal, and some number of passes makes it of `start`.
    pub fn expand_to_fixpoint(&self, token_map: &TokenMap, start: Vec<String>, rng: &mut StdRng) -> (r:
        Vec<String>)
        requires
            self.wf(),
            token_map.wf(),
            token_map@ == count_table(self@),
        ensures
            derives(self@, symbols_of(start@), symbols_of(r@)),
            settled(self@, symbols_of(r@)),
    {
        let ghost g = self@;
        let ghost first = symbols_of(start@);
        let ghost mut n: nat = 0;
        let mut current = start;
        let mut next = self.apply_to(token_map, &current, rng);
        while !same_symbols(&current, &next)
            invariant
                self.wf(),
                token_map.wf(),
                token_map@ == count_table(self@),
                g == self@,
                derives_in(g, first, symbols_of(current@), n),
                expands_to(g, symbols_of(current@), symbols_of(next@)),
            decreases height(g, symbols_of(current@)),
        {
            proof {
                let a = symbols_of(current@);
                let b = symbols_of(next@);
                let choices = choose|choices: Seq<int>| #[trigger]
                    valid_choices(g, a, choices) && b == expansion(g, a, choices);
                lemma_height_bounds(g, a);
                if height(g, a) == 0 {
                    assert forall|i: int| 0 <= i < a.len() implies !g.contains_key(
                        #[trigger] a[i],
                    ) by {
                        assert(level(g, a[i]) <= 0);
                    }
                    lemma_expansion_settled(g, a, choices);
                } else {
                    lemma_expansion_levels(g, a, choices, height(g, a));
                    lemma_height_le(g, b, (height(g, a) - 1) as nat);
                }
                assert(derives_in(g, first, b, n + 1));
                n = n + 1;
            }
            current = next;
            next = self.apply_to(token_map, &current, rng);
        }
        proof {
            lemma_fixed_point_settled(g, symbols_of(current@));
        }
        current
    }
    /// The known non-terminals, each once, in the order the store came to know them.
    pub fn symbols(&self) -> (r: Vec<String>)
        requires
            self.wf(),
        ensures
            r.len() == self.entries.len(),
            forall|i: int| 0 <= i < r.len() ==> (#[trigger] r[i])@ == self.entries[i].0@,
            forall|k: Symbol| self@.contains_key(k) <==> symbols_of(r@).contains(k),
    {
        let mut r: Vec<String> = Vec::new();
        let mut i: usize = 0;
        while i < self.entries.len()
            invariant
                i <= self.entries.len(),
                r.len() == i,
                forall|m: int| 0 <= m < i ==> (#[trigger] r[m])@ == self.entries[m].0@,
            decreases self.entries.len() - i,
        {
            r.push(self.entries[i].0.clone());
            i += 1;
        }
        proof {
            assert forall|k: Symbol| self@.contains_key(k) <==> symbols_of(r@).contains(k) by {
                if self@.contains_key(k) {
                    let m = self.index_of(k);
                    assert(symbols_of(r@)[m] == k);
                }
                if symbols_of(r@).contains(k) {
                    let m = choose|m: int| 0 <= m < r.len() && symbols_of(r@)[m] == k;
                    assert(self.entries[m].0@ == k);
                }
            }
        }
        r
    }

    /// One sentence of the grammar: `start` expanded until nothing changes, then written
    /// without quotes, single spaces between the symbols.
    pub fn generate(&self, token_map: &TokenMap, start: Vec<String>, rng: &mut StdRng) -> (r: String)
        requires
            self.wf(),
            token_map.wf(),
            token_map@ == count_table(self@),
        ensures
            exists|out: Seq<Symbol>| #[trigger]
                derives(self@, symbols_of(start@), out) && settled(self@, out) && r@ == sentence(
                    out,
                ),
            quote_free(r@),
    {
        let out = self.expand_to_fixpoint(token_map, start, rng);
        assert(derives(self@, symbols_of(start@), symbols_of(out@)));
        assemble(&out)
    }
}

impl SubstitutionsMap {
    /// One sentence of the grammar, drawn by a generator that is made from `seed`: the
    /// same store, start and seed give the same draws.
    pub fn generate_seeded(&self, token_map: &TokenMap, start: Vec<String>, seed: u64) -> (r: String)
        requires
            self.wf(),
            token_map.wf(),
            token_map@ == count_table(self@),
        ensures
            exists|out: Seq<Symbol>| #[trigger]
                derives(self@, symbols_of(start@), out) && settled(self@, out) && r@ == sentence(
                    out,
                ),
            quote_free(r@),
    {
        let mut rng = seeded(seed);
        self.generate(token_map, start, &mut rng)
    }
}

/// The start of every sentence: the one root non-terminal.
pub fn default_start() -> (r: Vec<String>)
    ensures
        symbols_of(r@) == seq!["Badvestment"@],
{
    let r = vec![String::from_str("Badvestment")];
    assert(symbols_of(r@) =~= seq!["Badvestment"@]);
    r
}

} // verus!
