//! The weight table: the count of every known non-terminal, computed once.

use vstd::prelude::*;
use crate::model::{Symbol, count};
use crate::counts::{count_table, table_count, positive};
use crate::store::SubstitutionsMap;

verus! {

/// The counts of the known non-terminals of one store.
#[derive(Debug)]
pub struct TokenMap {
    pub entries: Vec<(String, usize)>,
}

impl TokenMap {
    /// `k` is the non-terminal of some entry.
    pub open spec fn knows(&self, k: Symbol) -> bool {
        exists|i: int| 0 <= i < self.entries.len() && (#[trigger] self.entries[i]).0@ == k
    }

    /// The place of a known non-terminal among the entries.
    pub open spec fn index_of(&self, k: Symbol) -> int {
        choose|i: int| 0 <= i < self.entries.len() && (#[trigger] self.entries[i]).0@ == k
    }

    /// The table as a map from non-terminals to counts.
    pub open spec fn view(&self) -> Map<Symbol, nat> {
        Map::new(|k: Symbol| self.knows(k), |k: Symbol| self.entries[self.index_of(k)].1 as nat)
    }

    /// No non-terminal has two entries.
    pub open spec fn distinct(&self) -> bool {
        forall|i: int, j: int|
            0 <= i < j < self.entries.len() ==> (#[trigger] self.entries[i]).0@ != (
            #[trigger] self.entries[j]).0@
    }

    /// Each non-terminal once, each with a positive count.
    pub open spec fn wf(&self) -> bool {
        &&& self.distinct()
        &&& forall|i: int| 0 <= i < self.entries.len() ==> (#[trigger] self.entries[i]).1 >= 1
    }

    /// What the table holds for the entry at `i`.
    pub proof fn lemma_entry(&self, i: int)
        requires
            self.distinct(),
            0 <= i < self.entries.len(),
        ensures
            self@.contains_key(self.entries[i].0@),
            self.index_of(self.entries[i].0@) == i,
            self@[self.entries[i].0@] == self.entries[i].1,
    {
        let k = self.entries[i].0@;
        assert(self.knows(k));
        let c = self.index_of(k);
        if c < i {
            assert(self.entries[c].0@ != self.entries[i].0@);
        }
        if i < c {
            assert(self.entries[i].0@ != self.entries[c].0@);
        }
    }

    /// The counts of a well-formed table are positive.
    pub proof fn lemma_positive(&self)
        requires
            self.wf(),
        ensures
            positive(self@),
    {
        assert forall|k: Symbol| #[trigger] self@.contains_key(k) implies self@[k] >= 1 by {
            let i = self.index_of(k);
            self.lemma_entry(i);
        }
    }

    /// The table of `substitutions_map`: the count of each of its non-terminals. Nothing
    /// where one of the counts is more than a `usize` holds.
    pub fn new(substitutions_map: &SubstitutionsMap) -> (r: Option<TokenMap>)
        requires
            substitutions_map.wf(),
        ensures
            match r {
                Some(t) => t.wf() && t@ == count_table(substitutions_map@),
                None => exists|k: Symbol| #[trigger]
                    substitutions_map@.contains_key(k) && count(substitutions_map@, k)
                        > usize::MAX,
            },
    {
        let ghost g = substitutions_map@;
        let mut token_map = TokenMap { entries: Vec::new() };
        let mut i: usize = 0;
        while i < substitutions_map.entries.len()
            invariant
                substitutions_map.wf(),
                g == substitutions_map@,
                i <= substitutions_map.entries.len(),
                token_map.entries.len() == i,
                forall|k: int|
                    0 <= k < i ==> (#[trigger] token_map.entries[k]).0@
                        == substitutions_map.entries[k].0@ && token_map.entries[k].1 == count(
                        g,
                        substitutions_map.entries[k].0@,
                    ),
            decreases substitutions_map.entries.len() - i,
        {
            let token = &substitutions_map.entries[i].0;
            proof {
                substitutions_map.lemma_entry(i as int);
            }
            match substitutions_map.count_for(token) {
                None => {
                    return None;
                },
                Some(c) => {
                    token_map.entries.push((token.clone(), c));
                },
            }
            i += 1;
        }
        proof {
            substitutions_map.lemma_inhabited();
            crate::counts::lemma_count_table_positive(g);
            assert forall|a: int, b: int| 0 <= a < b < token_map.entries.len() implies (
            #[trigger] token_map.entries[a]).0@ != (#[trigger] token_map.entries[b]).0@ by {
                assert(substitutions_map.entries[a].0@ != substitutions_map.entries[b].0@);
            }
            assert forall|a: int| 0 <= a < token_map.entries.len() implies (
            #[trigger] token_map.entries[a]).1 >= 1 by {
                crate::counts::lemma_count_positive(g, substitutions_map.entries[a].0@);
            }
            assert forall|k: Symbol| token_map.knows(k) == substitutions_map.knows(k) by {
                if token_map.knows(k) {
                    let a = token_map.index_of(k);
                    assert(substitutions_map.entries[a].0@ == k);
                }
                if substitutions_map.knows(k) {
                    let a = substitutions_map.index_of(k);
                    assert(token_map.entries[a].0@ == k);
                }
            }
            assert forall|k: Symbol| token_map.knows(k) implies #[trigger] token_map@[k]
                == count_table(g)[k] by {
                let a = token_map.index_of(k);
                token_map.lemma_entry(a);
            }
            assert(token_map@ =~= count_table(g));
        }
        Some(token_map)
    }

    /// The count that the table holds for `token`, and one for a symbol that it does not
    /// hold.
    pub fn count_for(&self, token: &String) -> (r: usize)
        requires
            self.wf(),
        ensures
            r == table_count(self@, token@),
    {
        let mut i: usize = 0;
        while i < self.entries.len()
            invariant
                self.wf(),
                i <= self.entries.len(),
                forall|k: int| 0 <= k < i ==> (#[trigger] self.entries[k]).0@ != token@,
            decreases self.entries.len() - i,
        {
            if self.entries[i].0 == *token {
                proof {
                    self.lemma_entry(i as int);
                }
                return self.entries[i].1;
            }
            i += 1;
        }
        1
    }
}

} // verus!
