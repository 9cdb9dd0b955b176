//! The output: the symbols without their quotes, joined by single spaces.

use vstd::prelude::*;
use vstd::string::{StrSliceExecFns, StringExecFns};
use crate::model::Symbol;
use crate::store::symbols_of;

verus! {

/// `s` without its double quotes.
pub open spec fn unquoted(s: Seq<char>) -> Seq<char>
    decreases s.len(),
{
    if s.len() == 0 {
        Seq::empty()
    } else if s.last() == '"' {
        unquoted(s.drop_last())
    } else {
        unquoted(s.drop_last()).push(s.last())
    }
}

/// The symbols without their quotes, one space between each two.
pub open spec fn sentence(parts: Seq<Symbol>) -> Seq<char>
    decreases parts.len(),
{
    if parts.len() == 0 {
        Seq::empty()
    } else if parts.len() == 1 {
        unquoted(parts[0])
    } else {
        sentence(parts.drop_last()) + seq![' '] + unquoted(parts.last())
    }
}

/// `s` holds no double quote.
pub open spec fn quote_free(s: Seq<char>) -> bool {
    forall|i: int| 0 <= i < s.len() ==> #[trigger] s[i] != '"'
}

/// What `unquoted` gives holds no double quote.
pub proof fn lemma_unquoted_quote_free(s: Seq<char>)
    ensures
        quote_free(unquoted(s)),
    decreases s.len(),
{
    if s.len() > 0 {
        lemma_unquoted_quote_free(s.drop_last());
    }
}

/// A sentence holds no double quote, whatever the symbols.
pub proof fn lemma_sentence_quote_free(parts: Seq<Symbol>)
    ensures
        quote_free(sentence(parts)),
    decreases parts.len(),
{
    if parts.len() == 1 {
        lemma_unquoted_quote_free(parts[0]);
    } else if parts.len() > 1 {
        lemma_sentence_quote_free(parts.drop_last());
        lemma_unquoted_quote_free(parts.last());
    }
}

/// `symbol` without its double quotes.
pub fn strip_quotes(symbol: &String) -> (r: String)
    ensures
        r@ == unquoted(symbol@),
{
    let text = symbol.as_str();
    let n = text.unicode_len();
    let mut out = String::new();
    let mut i: usize = 0;
    while i < n
        invariant
            n == text@.len(),
            i <= n,
            out@ == unquoted(text@.take(i as int)),
        decreases n - i,
    {
        let c = text.get_char(i);
        proof {
            assert(text@.take(i + 1).drop_last() =~= text@.take(i as int));
            assert(text@.take(i + 1).last() == c);
            assert(text@.subrange(i as int, i + 1) =~= seq![c]);
        }
        if c != '"' {
            out.append(text.substring_char(i, i + 1));
            assert(out@ =~= unquoted(text@.take(i as int)).push(c));
        }
        i += 1;
    }
    proof {
        assert(text@.take(i as int) =~= text@);
    }
    out
}

/// The sentence that the symbols make: quotes gone, single spaces between.
pub fn assemble(symbols: &Vec<String>) -> (r: String)
    ensures
        r@ == sentence(symbols_of(symbols@)),
        quote_free(r@),
{
    let ghost parts = symbols_of(symbols@);
    let mut out = String::new();
    let mut i: usize = 0;
    while i < symbols.len()
        invariant
            parts == symbols_of(symbols@),
            i <= symbols.len(),
            out@ == sentence(parts.take(i as int)),
        decreases symbols.len() - i,
    {
        proof {
            assert(parts.take(i + 1).drop_last() =~= parts.take(i as int));
            assert(parts.take(i + 1).last() == symbols[i as int]@);
        }
        if i > 0 {
            proof {
                reveal_strlit(" ");
                assert(" "@ =~= seq![' ']);
            }
            out.append(" ");
        }
        let word = strip_quotes(&symbols[i]);
        out.append(word.as_str());
        proof {
            if i == 0 {
                assert(parts.take(1)[0] == symbols[0]@);
                assert(out@ =~= unquoted(symbols[0]@));
            }
        }
        i += 1;
    }
    proof {
        assert(parts.take(i as int) =~= parts);
        lemma_sentence_quote_free(parts);
    }
    out
}

} // verus!
