//! The rule parser: one line of text becomes one rule, or an error.
//!
//! A line is cut into tokens at white space. A token that opens with a double quote runs
//! to the next double quote, both kept, and may hold white space; any other token runs
//! to the next white space or double quote. A rule is a bare token, the token `::=`, and
//! one symbol or more.

use vstd::prelude::*;
use vstd::string::{StrSliceExecFns, StringExecFns};
use crate::ast::Rule;
use crate::model::Symbol;
use crate::store::symbols_of;

verus! {

/// Why a line is no rule.
#[derive(Debug, PartialEq, Eq, Clone, Copy)]
pub enum ParseError {
    /// A double quote opens and none closes it.
    UnterminatedQuote,
    /// The line is blank, or opens with a quoted token or with `::=`.
    BadLhs,
    /// The second token is not `::=`.
    NoSeparator,
    /// Nothing follows `::=`.
    EmptyRhs,
    /// `::=` stands among the symbols on the right.
    StraySeparator,
}

/// White space: blank, tab, line feed, carriage return.
pub open spec fn is_space(c: char) -> bool {
    c == ' ' || c == '\t' || c == '\n' || c == '\r'
}

/// The token between the two sides of a rule.
pub open spec fn separator() -> Seq<char> {
    seq![':', ':', '=']
}

/// How many characters at the front of `s` are neither white space nor a double quote.
pub open spec fn word_len(s: Seq<char>) -> nat
    decreases s.len(),
{
    if s.len() == 0 || is_space(s[0]) || s[0] == '"' {
        0
    } else {
        1 + word_len(s.skip(1))
    }
}

/// How many characters stand before the first double quote of `s`: all of them where it
/// has none.
pub open spec fn find_quote(s: Seq<char>) -> nat
    decreases s.len(),
{
    if s.len() == 0 || s[0] == '"' {
        0
    } else {
        1 + find_quote(s.skip(1))
    }
}

/// A word is no longer than the text.
pub proof fn lemma_word_len_bound(s: Seq<char>)
    ensures
        word_len(s) <= s.len(),
    decreases s.len(),
{
    if !(s.len() == 0 || is_space(s[0]) || s[0] == '"') {
        lemma_word_len_bound(s.skip(1));
    }
}

/// `token` before the tokens of the rest, where the rest has tokens.
pub open spec fn prepend(token: Symbol, rest: Option<Seq<Symbol>>) -> Option<Seq<Symbol>> {
    match rest {
        Some(r) => Some(seq![token] + r),
        None => None,
    }
}

/// `front` before the tokens of the rest, where the rest has tokens.
pub open spec fn prepend_all(front: Seq<Symbol>, rest: Option<Seq<Symbol>>) -> Option<
    Seq<Symbol>,
> {
    match rest {
        Some(r) => Some(front + r),
        None => None,
    }
}

/// The tokens of `s`, or nothing where a double quote stays open.
pub open spec fn tokens(s: Seq<char>) -> Option<Seq<Symbol>>
    decreases s.len(),
    via tokens_decreases
{
    if s.len() == 0 {
        Some(Seq::empty())
    } else if is_space(s[0]) {
        tokens(s.skip(1))
    } else if s[0] == '"' {
        let q = find_quote(s.skip(1)) as int;
        if q + 1 >= s.len() {
            None
        } else {
            prepend(s.take(q + 2), tokens(s.skip(q + 2)))
        }
    } else {
        prepend(s.take(word_len(s) as int), tokens(s.skip(word_len(s) as int)))
    }
}

#[via_fn]
proof fn tokens_decreases(s: Seq<char>) {
    lemma_word_len_bound(s);
}

/// The rule that the tokens make, or why they make none.
pub open spec fn rule_of(ts: Seq<Symbol>) -> Result<(Symbol, Seq<Symbol>), ParseError> {
    if ts.len() == 0 || ts[0].len() == 0 || ts[0][0] == '"' || ts[0] == separator() {
        Err(ParseError::BadLhs)
    } else if ts.len() < 2 || ts[1] != separator() {
        Err(ParseError::NoSeparator)
    } else if ts.len() < 3 {
        Err(ParseError::EmptyRhs)
    } else if exists|k: int| 2 <= k < ts.len() && #[trigger] ts[k] == separator() {
        Err(ParseError::StraySeparator)
    } else {
        Ok((ts[0], ts.skip(2)))
    }
}

/// The rule that the line states, or why it states none.
pub open spec fn parsed(line: Seq<char>) -> Result<(Symbol, Seq<Symbol>), ParseError> {
    match tokens(line) {
        None => Err(ParseError::UnterminatedQuote),
        Some(ts) => rule_of(ts),
    }
}

/// Whether `c` is white space.
pub fn space(c: char) -> (r: bool)
    ensures
        r == is_space(c),
{
    c == ' ' || c == '\t' || c == '\n' || c == '\r'
}

/// The tokens of `line`, or nothing where a double quote stays open.
pub fn tokenize(line: &str) -> (r: Option<Vec<String>>)
    ensures
        match r {
            Some(v) => tokens(line@) == Some(symbols_of(v@)),
            None => tokens(line@).is_none(),
        },
{
    let ghost s = line@;
    let n = line.unicode_len();
    let mut found: Vec<String> = Vec::new();
    let mut i: usize = 0;
    proof {
        assert(s.skip(0) =~= s);
        if let Some(all) = tokens(s) {
            assert(symbols_of(found@) + all =~= all);
        }
    }
    while i < n
        invariant
            s == line@,
            n == s.len(),
            i <= n,
            tokens(s) == prepend_all(symbols_of(found@), tokens(s.skip(i as int))),
        decreases n - i,
    {
        let c = line.get_char(i);
        let ghost rest = s.skip(i as int);
        let ghost front = symbols_of(found@);
        assert(rest[0] == c);
        if space(c) {
            assert(rest.skip(1) =~= s.skip(i + 1));
            i += 1;
        } else if c == '"' {
            let mut q: usize = i + 1;
            while q < n && line.get_char(q) != '"'
                invariant
                    s == line@,
                    n == s.len(),
                    i < q <= n,
                    find_quote(s.skip(i + 1)) == (q - i - 1) + find_quote(s.skip(q as int)),
                decreases n - q,
            {
                assert(s.skip(q as int)[0] == s[q as int]);
                assert(s.skip(q as int).skip(1) =~= s.skip(q + 1));
                q += 1;
            }
            assert(rest.skip(1) =~= s.skip(i + 1));
            if q >= n {
                assert(s.skip(q as int).len() == 0);
                return None;
            }
            assert(s.skip(q as int)[0] == s[q as int]);
            let token = String::from_str(line.substring_char(i, q + 1));
            proof {
                assert(rest.take(q - i + 1) =~= s.subrange(i as int, q + 1));
                assert(rest.skip(q - i + 1) =~= s.skip(q + 1));
            }
            found.push(token);
            proof {
                lemma_prepend_push(front, token@, tokens(s.skip(q + 1)));
                assert(symbols_of(found@) =~= front.push(token@));
            }
            i = q + 1;
        } else {
            let mut e: usize = i + 1;
            assert(rest.skip(1) =~= s.skip(i + 1));
            while e < n && !space(line.get_char(e)) && line.get_char(e) != '"'
                invariant
                    s == line@,
                    n == s.len(),
                    i < e <= n,
                    word_len(s.skip(i as int)) == (e - i) + word_len(s.skip(e as int)),
                decreases n - e,
            {
                assert(s.skip(e as int)[0] == s[e as int]);
                assert(s.skip(e as int).skip(1) =~= s.skip(e + 1));
                e += 1;
            }
            proof {
                if e < n {
                    assert(s.skip(e as int)[0] == s[e as int]);
                } else {
                    assert(s.skip(e as int).len() == 0);
                }
                assert(word_len(rest) == e - i);
                assert(rest.take(e - i) =~= s.subrange(i as int, e as int));
                assert(rest.skip(e - i) =~= s.skip(e as int));
            }
            let token = String::from_str(line.substring_char(i, e));
            found.push(token);
            proof {
                lemma_prepend_push(front, token@, tokens(s.skip(e as int)));
                assert(symbols_of(found@) =~= front.push(token@));
            }
            i = e;
        }
    }
    proof {
        assert(s.skip(i as int).len() == 0);
        assert(symbols_of(found@) + Seq::<Symbol>::empty() =~= symbols_of(found@));
    }
    Some(found)
}

/// A token moves from the rest to the front.
pub proof fn lemma_prepend_push(front: Seq<Symbol>, token: Symbol, rest: Option<Seq<Symbol>>)
    ensures
        prepend_all(front, prepend(token, rest)) == prepend_all(front.push(token), rest),
{
    if let Some(r) = rest {
        assert(front + (seq![token] + r) =~= front.push(token) + r);
    }
}

/// The rule that `line` states, or why it states none.
#[verifier::loop_isolation(false)]
pub fn parse_rule(line: &str) -> (r: Result<Rule, ParseError>)
    ensures
        match r {
            Ok(rule) => parsed(line@) == Ok::<(Symbol, Seq<Symbol>), ParseError>(
                (rule.lhs@, symbols_of(rule.rhs@)),
            ),
            Err(e) => parsed(line@) == Err::<(Symbol, Seq<Symbol>), ParseError>(e),
        },
{
    let found = match tokenize(line) {
        None => {
            return Err(ParseError::UnterminatedQuote);
        },
        Some(found) => found,
    };
    let ghost ts = symbols_of(found@);
    let sep = String::from_str("::=");
    proof {
        reveal_strlit("::=");
        assert(sep@ =~= separator());
    }
    if found.len() == 0 {
        return Err(ParseError::BadLhs);
    }
    assert(ts[0] == found[0]@);
    if found[0].as_str().unicode_len() == 0 || found[0].as_str().get_char(0) == '"' || found[0]
        == sep {
        return Err(ParseError::BadLhs);
    }
    if found.len() < 2 {
        return Err(ParseError::NoSeparator);
    }
    assert(ts[1] == found[1]@);
    if found[1] != sep {
        return Err(ParseError::NoSeparator);
    }
    if found.len() < 3 {
        return Err(ParseError::EmptyRhs);
    }
    let mut rhs: Vec<String> = Vec::new();
    let mut k: usize = 2;
    while k < found.len()
        invariant
            ts == symbols_of(found@),
            sep@ == separator(),
            2 <= k <= found.len(),
            symbols_of(rhs@) == ts.subrange(2, k as int),
            forall|m: int| 2 <= m < k ==> #[trigger] ts[m] != separator(),
        decreases found.len() - k,
    {
        assert(ts[k as int] == found[k as int]@);
        if found[k] == sep {
            return Err(ParseError::StraySeparator);
        }
        let ghost earlier = symbols_of(rhs@);
        let symbol = found[k].clone();
        rhs.push(symbol);
        k += 1;
        assert(symbols_of(rhs@) =~= earlier.push(symbol@));
        assert(ts.subrange(2, k as int) =~= ts.subrange(2, k - 1).push(ts[k - 1]));
    }
    assert(ts.subrange(2, k as int) =~= ts.skip(2));
    Ok(Rule { lhs: found[0].clone(), rhs: rhs })
}

} // verus!
