use badvestments::ast::Rule;
use badvestments::expand::{default_start, same_symbols};
use badvestments::output::{assemble, strip_quotes};
use badvestments::parser::{parse_rule, tokenize, ParseError};
use badvestments::store::{Substitution, Substitutions, SubstitutionsMap};
use badvestments::tokens::TokenMap;
use rand::rngs::StdRng;
use rand::SeedableRng;

fn text(s: &str) -> String {
    s.to_string()
}

fn texts(items: &[&str]) -> Vec<String> {
    items.iter().map(|s| s.to_string()).collect()
}

fn store_of(lines: &[&str]) -> SubstitutionsMap {
    let mut store = SubstitutionsMap::new();
    for line in lines {
        let rule = parse_rule(line).unwrap();
        assert!(store.add_substitution(rule));
    }
    store
}

fn sentence_of(store: &SubstitutionsMap, rng: &mut StdRng) -> String {
    let table = TokenMap::new(store).unwrap();
    store.generate(&table, default_start(), rng)
}

fn tally(store: &SubstitutionsMap, seed: u64, runs: usize, outcomes: &[&str]) -> Vec<usize> {
    let mut rng = StdRng::seed_from_u64(seed);
    let mut seen = vec![0usize; outcomes.len()];
    for _ in 0..runs {
        let s = sentence_of(store, &mut rng);
        let at = outcomes.iter().position(|o| *o == s).unwrap();
        seen[at] += 1;
    }
    seen
}

#[test]
fn single_terminal_rule() {
    let store = store_of(&["Badvestment ::= \"Hello\""]);
    let mut rng = StdRng::seed_from_u64(7);
    assert_eq!(sentence_of(&store, &mut rng), "Hello");
    assert_eq!(store.count_for(&text("Badvestment")), Some(1));
}

#[test]
fn two_alternatives_both_terminal() {
    let store = store_of(&["Badvestment ::= \"A\"", "Badvestment ::= \"B\""]);
    assert_eq!(store.count_for(&text("Badvestment")), Some(2));
    let seen = tally(&store, 11, 4000, &["A", "B"]);
    assert_eq!(seen[0] + seen[1], 4000);
    assert!(seen[0] > 1800 && seen[0] < 2200);
    assert!(seen[1] > 1800 && seen[1] < 2200);
}

#[test]
fn weighted_by_subtree_size() {
    let store = store_of(&[
        "Badvestment ::= X",
        "Badvestment ::= \"z\"",
        "X ::= \"a\"",
        "X ::= \"b\"",
        "X ::= \"c\"",
    ]);
    assert_eq!(store.count_for(&text("X")), Some(3));
    assert_eq!(store.count_for(&text("Badvestment")), Some(4));
    let seen = tally(&store, 3, 8000, &["a", "b", "c", "z"]);
    for n in seen {
        assert!(n > 1800 && n < 2200);
    }
}

#[test]
fn compound_right_hand_side() {
    let store = store_of(&[
        "Badvestment ::= A B",
        "A ::= \"x\"",
        "A ::= \"y\"",
        "B ::= \"1\"",
        "B ::= \"2\"",
    ]);
    assert_eq!(store.count_for(&text("Badvestment")), Some(4));
    let seen = tally(&store, 5, 8000, &["x 1", "x 2", "y 1", "y 2"]);
    for n in seen {
        assert!(n > 1800 && n < 2200);
    }
}

#[test]
fn cycle_rejection() {
    let mut store = SubstitutionsMap::new();
    assert!(store.add_substitution(parse_rule("A ::= B").unwrap()));
    assert!(!store.add_substitution(parse_rule("B ::= A").unwrap()));
    assert_eq!(store.entries.len(), 1);
    assert_eq!(store.entries[0].0, "A");
    assert_eq!(store.entries[0].1.options.len(), 1);
    assert_eq!(store.entries[0].1.options[0].produces, texts(&["B"]));
    assert!(store.alternatives(&text("B")).is_none());
}

#[test]
fn unknown_non_terminal_passthrough() {
    let store = store_of(&["Badvestment ::= Foo \"bar\""]);
    let mut rng = StdRng::seed_from_u64(1);
    assert_eq!(sentence_of(&store, &mut rng), "Foo bar");
    assert_eq!(store.count_for(&text("Foo")), Some(1));
}

#[test]
fn self_reference_is_rejected() {
    let mut store = SubstitutionsMap::new();
    assert!(!store.add_substitution(parse_rule("A ::= \"x\" A").unwrap()));
    assert_eq!(store.entries.len(), 0);
}

#[test]
fn long_cycle_is_rejected_and_store_unchanged() {
    let mut store = store_of(&["A ::= B \"x\"", "B ::= \"y\" C", "C ::= \"z\""]);
    assert!(!store.add_substitution(parse_rule("C ::= \"w\" A").unwrap()));
    assert_eq!(store.entries.len(), 3);
    assert_eq!(store.alternatives(&text("C")).unwrap().options.len(), 1);
    assert_eq!(store.symbols(), texts(&["A", "B", "C"]));
    assert!(store.add_substitution(parse_rule("C ::= \"w\" D").unwrap()));
    assert_eq!(store.alternatives(&text("C")).unwrap().options.len(), 2);
}

#[test]
fn find_loop_follows_the_store() {
    let store = store_of(&["A ::= B", "B ::= C \"t\""]);
    assert!(store.find_loop(&text("C"), &Substitution::new(texts(&["\"q\"", "A"]))));
    assert!(store.find_loop(&text("A"), &Substitution::new(texts(&["A"]))));
    assert!(!store.find_loop(&text("A"), &Substitution::new(texts(&["C", "D"]))));
    assert!(!store.find_loop(&text("A"), &Substitution::new(Vec::new())));
    assert!(store.symbol_reaches(&text("A"), &text("\"t\"")));
    assert!(store.symbol_reaches(&text("Z"), &text("Z")));
    assert!(!store.symbol_reaches(&text("B"), &text("A")));
}

#[test]
fn same_production_twice_doubles_its_weight() {
    let mut store = store_of(&["Badvestment ::= X \"k\"", "X ::= \"a\"", "X ::= \"b\""]);
    assert_eq!(store.count_for(&text("Badvestment")), Some(2));
    assert!(store.add_substitution(parse_rule("Badvestment ::= X \"k\"").unwrap()));
    let alts = store.alternatives(&text("Badvestment")).unwrap();
    assert_eq!(alts.options.len(), 2);
    assert_eq!(alts.options[0].produces, alts.options[1].produces);
    assert_eq!(store.count_for(&text("Badvestment")), Some(4));
    let table = TokenMap::new(&store).unwrap();
    assert_eq!(alts.total_count(&table), Some(4));
}

#[test]
fn count_is_sum_of_products() {
    let store = store_of(&[
        "S ::= A B",
        "S ::= A",
        "S ::= \"t\" Q",
        "A ::= \"1\"",
        "A ::= \"2\"",
        "B ::= \"x\"",
        "B ::= \"y\"",
        "B ::= A A",
    ]);
    assert_eq!(store.count_for(&text("A")), Some(2));
    assert_eq!(store.count_for(&text("B")), Some(6));
    assert_eq!(store.count_for(&text("S")), Some(2 * 6 + 2 + 1));
    assert_eq!(store.count_for(&text("Q")), Some(1));
    assert_eq!(store.count_for(&text("\"t\"")), Some(1));
    let table = TokenMap::new(&store).unwrap();
    assert_eq!(table.count_for(&text("S")), 15);
    assert_eq!(table.count_for(&text("B")), 6);
    assert_eq!(table.count_for(&text("Q")), 1);
    assert_eq!(table.entries.len(), 3);
}

#[test]
fn weight_is_a_product_not_a_sum() {
    let store = store_of(&["A ::= \"1\"", "A ::= \"2\"", "A ::= \"3\""]);
    let table = TokenMap::new(&store).unwrap();
    assert_eq!(Substitution::new(texts(&["A", "A"])).get_count(&table), Some(9));
    assert_eq!(Substitution::new(texts(&["A", "\"x\"", "B"])).get_count(&table), Some(3));
    assert_eq!(Substitution::new(Vec::new()).get_count(&table), Some(1));
}

#[test]
fn pick_uses_half_open_intervals() {
    let store = store_of(&["X ::= \"a\"", "X ::= \"b\"", "X ::= \"c\"", "S ::= X", "S ::= \"z\"", "S ::= X X"]);
    let table = TokenMap::new(&store).unwrap();
    let alts = store.alternatives(&text("S")).unwrap();
    assert_eq!(alts.total_count(&table), Some(13));
    assert_eq!(alts.pick(&table, 0), Some(0));
    assert_eq!(alts.pick(&table, 2), Some(0));
    assert_eq!(alts.pick(&table, 3), Some(1));
    assert_eq!(alts.pick(&table, 4), Some(2));
    assert_eq!(alts.pick(&table, 12), Some(2));
    assert_eq!(alts.pick(&table, 13), None);
}

#[test]
fn every_alternative_is_drawn() {
    let store = store_of(&["Badvestment ::= \"first\"", "Badvestment ::= \"last\""]);
    let seen = tally(&store, 99, 200, &["first", "last"]);
    assert!(seen[0] > 0);
    assert!(seen[1] > 0);
}

#[test]
fn same_seed_same_sentences() {
    let store = store_of(&[
        "Badvestment ::= A B A",
        "A ::= \"x\"",
        "A ::= \"y\" B",
        "B ::= \"1\"",
        "B ::= \"2\"",
        "B ::= \"3\"",
    ]);
    let mut one = StdRng::seed_from_u64(2024);
    let mut two = StdRng::seed_from_u64(2024);
    for _ in 0..50 {
        assert_eq!(sentence_of(&store, &mut one), sentence_of(&store, &mut two));
    }
}

#[test]
fn same_seed_same_sentence_from_the_library() {
    let store = store_of(&[
        "Badvestment ::= A A A A",
        "A ::= \"p\"",
        "A ::= \"q\"",
        "A ::= \"r\"",
    ]);
    let table = TokenMap::new(&store).unwrap();
    let mut seen: Vec<String> = Vec::new();
    for seed in 0..40u64 {
        let one = store.generate_seeded(&table, default_start(), seed);
        let two = store.generate_seeded(&table, default_start(), seed);
        assert_eq!(one, two);
        assert_eq!(one.len(), 7);
        if !seen.contains(&one) {
            seen.push(one);
        }
    }
    assert!(seen.len() > 1);
}

#[test]
fn one_pass_replaces_each_known_symbol_once() {
    let store = store_of(&["A ::= B \"x\"", "B ::= \"y\""]);
    let table = TokenMap::new(&store).unwrap();
    let mut rng = StdRng::seed_from_u64(0);
    let once = store.apply_substitutions(&table, texts(&["A", "Q", "B"]), &mut rng);
    assert_eq!(once, texts(&["B", "\"x\"", "Q", "\"y\""]));
    let twice = store.apply_substitutions(&table, once, &mut rng);
    assert_eq!(twice, texts(&["\"y\"", "\"x\"", "Q", "\"y\""]));
    let end = store.expand_to_fixpoint(&table, texts(&["A", "Q", "B"]), &mut rng);
    assert_eq!(end, twice);
}

#[test]
fn output_has_no_quotes() {
    assert_eq!(strip_quotes(&text("\"a\"b\"\"")), "ab");
    assert_eq!(assemble(&texts(&["\"Hello\"", "Foo", "\"two words\""])), "Hello Foo two words");
    assert_eq!(assemble(&texts(&["\"\"", "x"])), " x");
    assert_eq!(assemble(&Vec::new()), "");
    assert_eq!(assemble(&texts(&["\"h\u{e9}\""])), "h\u{e9}");
    let store = store_of(&["Badvestment ::= \"a\" Q\"q \"b c"]);
    let mut rng = StdRng::seed_from_u64(4);
    let made = sentence_of(&store, &mut rng);
    assert!(!made.contains('"'));
    assert_eq!(made, "a Q q  b c");
}

#[test]
fn parser_reads_a_rule() {
    let rule = parse_rule("  Lhs ::=\tOne \"two words\"  Three  ").unwrap();
    assert_eq!(rule.lhs, "Lhs");
    assert_eq!(rule.rhs, texts(&["One", "\"two words\"", "Three"]));
    let joined = parse_rule("A ::= x\"y\"z").unwrap();
    assert_eq!(joined.rhs, texts(&["x", "\"y\"", "z"]));
}

#[test]
fn parser_errors() {
    assert_eq!(parse_rule("A ::= \"open").err(), Some(ParseError::UnterminatedQuote));
    assert_eq!(parse_rule("").err(), Some(ParseError::BadLhs));
    assert_eq!(parse_rule("   ").err(), Some(ParseError::BadLhs));
    assert_eq!(parse_rule("\"A\" ::= B").err(), Some(ParseError::BadLhs));
    assert_eq!(parse_rule("::= B").err(), Some(ParseError::BadLhs));
    assert_eq!(parse_rule("A").err(), Some(ParseError::NoSeparator));
    assert_eq!(parse_rule("A B ::= C").err(), Some(ParseError::NoSeparator));
    assert_eq!(parse_rule("A::=B").err(), Some(ParseError::NoSeparator));
    assert_eq!(parse_rule("A ::=").err(), Some(ParseError::EmptyRhs));
    assert_eq!(parse_rule("A ::= B ::= C").err(), Some(ParseError::StraySeparator));
}

#[test]
fn tokens_of_a_line() {
    assert_eq!(tokenize("a  \"b c\"d"), Some(texts(&["a", "\"b c\"", "d"])));
    assert_eq!(tokenize(" \t "), Some(Vec::new()));
    assert_eq!(tokenize("a \""), None);
}

#[test]
fn counts_that_do_not_fit() {
    let mut lines: Vec<String> = vec![text("N0 ::= \"a\""), text("N0 ::= \"b\"")];
    for k in 0..6 {
        lines.push(format!("N{} ::= N{} N{}", k + 1, k, k));
    }
    let mut store = SubstitutionsMap::new();
    for line in &lines {
        assert!(store.add_substitution(parse_rule(line).unwrap()));
    }
    assert_eq!(store.count_for(&text("N4")), Some(1usize << 16));
    if usize::BITS == 64 {
        assert_eq!(store.count_for(&text("N5")), Some(1usize << 32));
        assert_eq!(store.count_for(&text("N6")), None);
        assert!(TokenMap::new(&store).is_none());
    }
}

#[test]
fn plain_values() {
    let one = Substitution::new(texts(&["a", "b"]));
    assert_eq!(one.produces, texts(&["a", "b"]));
    let many = Substitutions::new(one);
    assert_eq!(many.options.len(), 1);
    let store = SubstitutionsMap::new();
    assert!(store.entries.is_empty());
    assert_eq!(store.position(&text("A")), None);
    assert_eq!(default_start(), texts(&["Badvestment"]));
    assert!(same_symbols(&texts(&["a", "b"]), &texts(&["a", "b"])));
    assert!(!same_symbols(&texts(&["a", "b"]), &texts(&["a", "c"])));
    assert!(!same_symbols(&texts(&["a"]), &texts(&["a", "b"])));
    let rule = Rule { lhs: text("A"), rhs: texts(&["\"x\""]) };
    let mut grown = SubstitutionsMap::new();
    assert!(grown.add_substitution(rule));
    assert_eq!(grown.position(&text("A")), Some(0));
}
