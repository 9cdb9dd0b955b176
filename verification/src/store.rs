//! The grammar store: the known non-terminals with their alternatives. A production is
//! added only where the grammar stays acyclic.

use vstd::prelude::*;
use crate::ast::Rule;
use crate::laws::lemma_rejected_iff_cycle;
use crate::model::{Symbol, Grammar, acyclic, reaches, reaches_any, extend, level, count,
    lemma_level_decreases, lemma_extend_acyclic};
use crate::counts::{count_table, table_count, weight, total, inhabited, lemma_count_table_positive,
    lemma_count_is_total, lemma_weight_step, lemma_weight_prefix, lemma_weight_positive,
    lemma_total_member, lemma_total_step, lemma_total_prefix};

verus! {

/// The texts of a sequence of strings.
pub open spec fn symbols_of(v: Seq<String>) -> Seq<Symbol> {
    Seq::new(v.len(), |i: int| v[i]@)
}

/// One alternative: the symbols that it produces, in order.
#[derive(Debug)]
pub struct Substitution {
    pub produces: Vec<String>,
}

impl View for Substitution {
    type V = Seq<Symbol>;

    open spec fn view(&self) -> Seq<Symbol> {
        symbols_of(self.produces@)
    }
}

/// The alternatives as sequences of symbols.
pub open spec fn alternatives_of(v: Seq<Substitution>) -> Seq<Seq<Symbol>> {
    Seq::new(v.len(), |i: int| v[i]@)
}

/// The alternatives of one non-terminal, in the order they were added.
#[derive(Debug)]
pub struct Substitutions {
    pub options: Vec<Substitution>,
}

impl View for Substitutions {
    type V = Seq<Seq<Symbol>>;

    open spec fn view(&self) -> Seq<Seq<Symbol>> {
        alternatives_of(self.options@)
    }
}

impl Substitution {
    pub fn new(produces: Vec<String>) -> (r: Substitution)
        ensures
            r@ == symbols_of(produces@),
            r.produces == produces,
    {
        Substitution { produces: produces }
    }
}

impl Substitutions {
    pub fn new(substitution: Substitution) -> (r: Substitutions)
        ensures
            r@ == seq![substitution@],
            r.options@ == seq![substitution],
    {
        let r = Substitutions { options: vec![substitution] };
        assert(r@ =~= seq![substitution@]);
        r
    }
}

/// The store: each known non-terminal once, with its alternatives.
#[derive(Debug)]
pub struct SubstitutionsMap {
    pub entries: Vec<(String, Substitutions)>,
}

impl SubstitutionsMap {
    /// `k` is the non-terminal of some entry.
    pub open spec fn knows(&self, k: Symbol) -> bool {
        exists|i: int| 0 <= i < self.entries.len() && (#[trigger] self.entries[i]).0@ == k
    }

    /// The place of a known non-terminal among the entries.
    pub open spec fn index_of(&self, k: Symbol) -> int {
        choose|i: int| 0 <= i < self.entries.len() && (#[trigger] self.entries[i]).0@ == k
    }

    /// The grammar that the store holds.
    pub open spec fn view(&self) -> Grammar {
        Map::new(|k: Symbol| self.knows(k), |k: Symbol| self.entries[self.index_of(k)].1@)
    }

    /// No non-terminal has two entries.
    pub open spec fn distinct(&self) -> bool {
        forall|i: int, j: int|
            0 <= i < j < self.entries.len() ==> (#[trigger] self.entries[i]).0@ != (
            #[trigger] self.entries[j]).0@
    }

    /// Each non-terminal once, each with an alternative, and no cycle among them.
    pub open spec fn wf(&self) -> bool {
        &&& self.distinct()
        &&& forall|i: int|
            0 <= i < self.entries.len() ==> (#[trigger] self.entries[i]).1.options.len() > 0
        &&& acyclic(self@)
    }

    /// What the grammar holds for the entry at `i`.
    pub proof fn lemma_entry(&self, i: int)
        requires
            self.distinct(),
            0 <= i < self.entries.len(),
        ensures
            self@.contains_key(self.entries[i].0@),
            self.index_of(self.entries[i].0@) == i,
            self@[self.entries[i].0@] == self.entries[i].1@,
    {
        let k = self.entries[i].0@;
        assert(self.knows(k));
        let c = self.index_of(k);
        assert(0 <= c < self.entries.len() && self.entries[c].0@ == k);
        if c < i {
            assert(self.entries[c].0@ != self.entries[i].0@);
        }
        if i < c {
            assert(self.entries[i].0@ != self.entries[c].0@);
        }
    }

    /// The empty store.
    pub fn new() -> (r: SubstitutionsMap)
        ensures
            r.wf(),
            r@ == Map::<Symbol, Seq<Seq<Symbol>>>::empty(),
    {
        let r = SubstitutionsMap { entries: Vec::new() };
        proof {
            assert(r@ =~= Map::<Symbol, Seq<Seq<Symbol>>>::empty());
            let z = |x: Symbol| 0nat;
            assert(crate::model::ranked(r@, z, 1));
            assert(crate::model::ranks(r@, z));
        }
        r
    }

    /// The place of `symbol` among the entries, where the store knows it.
    pub fn position(&self, symbol: &String) -> (r: Option<usize>)
        requires
            self.distinct(),
        ensures
            match r {
                Some(i) => i < self.entries.len() && self.entries[i as int].0@ == symbol@
                    && self@.contains_key(symbol@) && self.index_of(symbol@) == i,
                None => !self@.contains_key(symbol@),
            },
    {
        let mut i: usize = 0;
        while i < self.entries.len()
            invariant
                self.distinct(),
                i <= self.entries.len(),
                forall|k: int| 0 <= k < i ==> (#[trigger] self.entries[k]).0@ != symbol@,
            decreases self.entries.len() - i,
        {
            if self.entries[i].0 == *symbol {
                proof {
                    self.lemma_entry(i as int);
                }
                return Some(i);
            }
            i += 1;
        }
        None
    }

    /// The alternatives of `symbol`, or nothing for a symbol that the store does not know.
    pub fn alternatives(&self, symbol: &String) -> (r: Option<&Substitutions>)
        requires
            self.distinct(),
        ensures
            match r {
                Some(a) => self@.contains_key(symbol@) && a@ == self@[symbol@],
                None => !self@.contains_key(symbol@),
            },
    {
        match self.position(symbol) {
            Some(i) => {
                proof {
                    self.lemma_entry(i as int);
                }
                Some(&self.entries[i].1)
            },
            None => None,
        }
    }

    /// Whether rewriting `from` can produce `target`, `from` itself included.
    #[verifier::loop_isolation(false)]
    pub fn symbol_reaches(&self, from: &String, target: &String) -> (r: bool)
        requires
            self.wf(),
        ensures
            r == reaches(self@, from@, target@),
        decreases level(self@, from@),
    {
        if *from == *target {
            return true;
        }
        match self.position(from) {
            None => false,
            Some(idx) => {
                proof {
                    self.lemma_entry(idx as int);
                }
                let ghost g = self@;
                let ghost s = from@;
                let ghost t = target@;
                let options = &self.entries[idx].1.options;
                let mut i: usize = 0;
                while i < options.len()
                    invariant
                        i <= options.len(),
                        forall|a: int, b: int|
                            0 <= a < i && 0 <= b < g[s][a].len() ==> !reaches(
                                g,
                                #[trigger] g[s][a][b],
                                t,
                            ),
                    decreases options.len() - i,
                {
                    let produces = &options[i].produces;
                    let mut j: usize = 0;
                    while j < produces.len()
                        invariant
                            j <= produces.len(),
                            forall|b: int|
                                0 <= b < j ==> !reaches(g, #[trigger] g[s][i as int][b], t),
                        decreases produces.len() - j,
                    {
                        proof {
                            lemma_level_decreases(g, s, i as int, j as int);
                            assert(g[s][i as int][j as int] == produces[j as int]@);
                        }
                        if self.symbol_reaches(&produces[j], target) {
                            return true;
                        }
                        j += 1;
                    }
                    i += 1;
                }
                false
            },
        }
    }

    /// Whether a symbol of `substitution` reaches `symbol`: whether `substitution`, added
    /// as an alternative of `symbol`, would close a cycle.
    pub fn find_loop(&self, symbol: &String, substitution: &Substitution) -> (r: bool)
        requires
            self.wf(),
        ensures
            r == reaches_any(self@, substitution@, symbol@),
    {
        let mut j: usize = 0;
        while j < substitution.produces.len()
            invariant
                self.wf(),
                j <= substitution.produces.len(),
                forall|b: int|
                    0 <= b < j ==> !#[trigger] reaches(self@, substitution@[b], symbol@),
            decreases substitution.produces.len() - j,
        {
            assert(substitution@[j as int] == substitution.produces[j as int]@);
            if self.symbol_reaches(&substitution.produces[j], symbol) {
                return true;
            }
            j += 1;
        }
        false
    }

    /// Adds `substitution` as the last alternative of its non-terminal, unless that would
    /// close a cycle: then the store stays as it was and the answer is `false`.
    pub fn add_substitution(&mut self, substitution: Rule) -> (added: bool)
        requires
            old(self).wf(),
        ensures
            final(self).wf(),
            added == !reaches_any(old(self)@, symbols_of(substitution.rhs@), substitution.lhs@),
            added == acyclic(
                extend(old(self)@, substitution.lhs@, symbols_of(substitution.rhs@)),
            ),
            added ==> final(self)@ == extend(
                old(self)@,
                substitution.lhs@,
                symbols_of(substitution.rhs@),
            ),
            !added ==> *final(self) == *old(self),
    {
        let ghost before = *self;
        let ghost g = self@;
        let ghost n = substitution.lhs@;
        let ghost a = symbols_of(substitution.rhs@);
        let Rule { lhs, rhs } = substitution;
        let new_substitution = Substitution::new(rhs);
        proof {
            lemma_rejected_iff_cycle(g, n, a);
        }
        if self.find_loop(&lhs, &new_substitution) {
            return false;
        }
        proof {
            lemma_extend_acyclic(g, n, a);
        }
        match self.position(&lhs) {
            Some(idx) => {
                self.entries[idx].1.options.push(new_substitution);
                proof {
                    assert(self.entries.len() == before.entries.len());
                    assert(self.entries[idx as int].1@ =~= before.entries[idx as int].1@.push(a));
                    assert forall|i: int| 0 <= i < self.entries.len() implies (
                    #[trigger] self.entries[i]).0 == before.entries[i].0 && (i != idx
                        ==> self.entries[i] == before.entries[i]) by {}
                    before.lemma_entry(idx as int);
                    assert forall|k: Symbol| self.knows(k) == before.knows(k) by {
                        if self.knows(k) {
                            let i = self.index_of(k);
                            assert(before.entries[i].0@ == k);
                        }
                        if before.knows(k) {
                            let i = before.index_of(k);
                            assert(self.entries[i].0@ == k);
                        }
                    }
                    assert forall|k: Symbol| self.knows(k) implies #[trigger] self@[k] == extend(
                        g,
                        n,
                        a,
                    )[k] by {
                        let i = before.index_of(k);
                        before.lemma_entry(i);
                        self.lemma_entry(i);
                    }
                    assert(self@ =~= extend(g, n, a));
                }
            },
            None => {
                let fresh = Substitutions::new(new_substitution);
                self.entries.push((lhs, fresh));
                proof {
                    let last = before.entries.len() as int;
                    assert(self.entries[last].0@ == n);
                    assert(self.entries[last].1@ == seq![a]);
                    assert forall|i: int| 0 <= i < last implies #[trigger] self.entries[i]
                        == before.entries[i] by {}
                    assert forall|i: int| 0 <= i < last implies (#[trigger] self.entries[i]).0@
                        != n by {
                        before.lemma_entry(i);
                    }
                    assert forall|k: Symbol| self.knows(k) == (before.knows(k) || k == n) by {
                        if self.knows(k) {
                            let i = self.index_of(k);
                            if i < last {
                                assert(before.entries[i].0@ == k);
                            }
                        }
                        if before.knows(k) {
                            let i = before.index_of(k);
                            assert(self.entries[i].0@ == k);
                        }
                        if k == n {
                            assert(self.entries[last].0@ == k);
                        }
                    }
                    assert forall|k: Symbol| self.knows(k) implies #[trigger] self@[k] == extend(
                        g,
                        n,
                        a,
                    )[k] by {
                        if k == n {
                            self.lemma_entry(last);
                        } else {
                            let i = before.index_of(k);
                            before.lemma_entry(i);
                            self.lemma_entry(i);
                        }
                    }
                    assert(self@ =~= extend(g, n, a));
                }
            },
        }
        true
    }
    /// Every known non-terminal of a well-formed store has an alternative.
    pub proof fn lemma_inhabited(&self)
        requires
            self.wf(),
        ensures
            inhabited(self@),
    {
        assert forall|k: Symbol| #[trigger] self@.contains_key(k) implies self@[k].len() >= 1 by {
            let i = self.index_of(k);
            self.lemma_entry(i);
        }
    }

    /// The number of sentences that `symbol` derives, or nothing where that number is
    /// more than a `usize` holds.
    #[verifier::loop_isolation(false)]
    pub fn count_for(&self, symbol: &String) -> (r: Option<usize>)
        requires
            self.wf(),
        ensures
            match r {
                Some(c) => c == count(self@, symbol@),
                None => count(self@, symbol@) > usize::MAX,
            },
        decreases level(self@, symbol@),
    {
        match self.position(symbol) {
            None => Some(1),
            Some(idx) => {
                let ghost g = self@;
                let ghost s = symbol@;
                let ghost t = count_table(g);
                proof {
                    self.lemma_entry(idx as int);
                    self.lemma_inhabited();
                    lemma_count_table_positive(g);
                    lemma_count_is_total(g, s);
                }
                let options = &self.entries[idx].1.options;
                let mut sum: usize = 0;
                let mut i: usize = 0;
                while i < options.len()
                    invariant
                        i <= options.len(),
                        sum == total(t, g[s].take(i as int)),
                    decreases options.len() - i,
                {
                    let produces = &options[i].produces;
                    let ghost a = g[s][i as int];
                    let mut product: usize = 1;
                    let mut j: usize = 0;
                    proof {
                        lemma_total_member(t, g[s], i as int);
                        lemma_total_step(t, g[s], i as int);
                        lemma_total_prefix(t, g[s], i + 1);
                    }
                    while j < produces.len()
                        invariant
                            j <= produces.len(),
                            product == weight(t, a.take(j as int)),
                        decreases produces.len() - j,
                    {
                        proof {
                            lemma_level_decreases(g, s, i as int, j as int);
                            lemma_weight_step(t, a, j as int);
                            lemma_weight_prefix(t, a, j + 1);
                            lemma_weight_positive(t, a.take(j as int));
                            assert(a[j as int] == produces[j as int]@);
                            assert(table_count(t, a[j as int]) == count(g, a[j as int]));
                        }
                        match self.count_for(&produces[j]) {
                            None => {
                                proof {
                                    let x = weight(t, a.take(j as int));
                                    let y = count(g, a[j as int]);
                                    assert(x * y >= y) by (nonlinear_arith)
                                        requires
                                            x >= 1,
                                            y >= 0,
                                    ;
                                }
                                return None;
                            },
                            Some(c) => match product.checked_mul(c) {
                                None => {
                                    return None;
                                },
                                Some(p) => {
                                    product = p;
                                },
                            },
                        }
                        j += 1;
                    }
                    proof {
                        assert(a.take(j as int) =~= a);
                    }
                    match sum.checked_add(product) {
                        None => {
                            return None;
                        },
                        Some(v) => {
                            sum = v;
                        },
                    }
                    i += 1;
                }
                proof {
                    assert(g[s].take(i as int) =~= g[s]);
                }
                Some(sum)
            },
        }
    }
}

} // verus!