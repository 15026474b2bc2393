use cfg_core::formal_language::CfgError;
use cfg_core::formal_language::CfgRule;
use cfg_core::formal_language::CfgSymbolSet;
use cfg_core::formal_language::Symbol;
use cfg_core::grammar::Cfg;

fn sym(id: u16) -> Symbol {
    Symbol { id }
}

fn rule(origin: u16, replacement: &[u16]) -> CfgRule {
    CfgRule {
        origin: sym(origin),
        replacement: replacement.iter().map(|&id| sym(id)).collect(),
    }
}

fn augmented(terminals: &[&str], non_terminals: &[&str]) -> CfgSymbolSet {
    CfgSymbolSet::new_augmented(
        terminals.iter().map(|s| String::from(*s)).collect(),
        non_terminals.iter().map(|s| String::from(*s)).collect(),
    )
}

/// Non-terminals: ERR_NON_TERM 0, START 1, S 2, A 3, B 4; terminals:
/// ERR_TERM 5, END 6.  Rules: S -> A B, A -> epsilon, B -> epsilon.
fn all_nullable_grammar() -> Cfg {
    let symbol_set = augmented(&[], &["S", "A", "B"]);
    let rules = vec![rule(2, &[3, 4]), rule(3, &[]), rule(4, &[])];
    Cfg::new(symbol_set, rules).unwrap()
}

#[test]
fn nullable_fixpoint_marks_the_whole_chain() {
    let mut cfg = all_nullable_grammar();
    assert!(cfg.is_symbol_nullable(sym(3)));
    assert!(cfg.is_symbol_nullable(sym(4)));
    assert!(cfg.is_symbol_nullable(sym(2)));
    assert!(!cfg.is_symbol_nullable(sym(0)));
    assert!(!cfg.is_symbol_nullable(sym(1)));
    // Terminals are never nullable.
    assert!(!cfg.is_symbol_nullable(sym(5)));
    assert!(!cfg.is_symbol_nullable(sym(6)));
}

#[test]
fn nullable_fixpoint_terminal_blocks_the_origin() {
    // Non-terminals: S 2, A 3; terminals: ERR_TERM 4, END 5, x 6.
    let symbol_set = augmented(&["x"], &["S", "A"]);
    let rules = vec![rule(2, &[3, 6]), rule(3, &[])];
    let mut cfg = Cfg::new(symbol_set, rules).unwrap();
    assert!(cfg.is_symbol_nullable(sym(3)));
    assert!(!cfg.is_symbol_nullable(sym(2)));
}

#[test]
fn nullable_fixpoint_terminates_on_mutual_recursion() {
    // A -> B, B -> A, no epsilon rule anywhere: the worklist drains without
    // marking either.
    let symbol_set = augmented(&[], &["A", "B"]);
    let rules = vec![rule(2, &[3]), rule(3, &[2])];
    let mut cfg = Cfg::new(symbol_set, rules).unwrap();
    assert!(!cfg.is_symbol_nullable(sym(2)));
    assert!(!cfg.is_symbol_nullable(sym(3)));
}

#[test]
fn nullable_queries_are_idempotent() {
    let mut cfg = all_nullable_grammar();
    let first = cfg.is_symbol_nullable(sym(2));
    let second = cfg.is_symbol_nullable(sym(2));
    assert_eq!(first, second);
    assert!(first);
    let word = [sym(3), sym(4)];
    assert_eq!(cfg.is_word_nullable(&word), cfg.is_word_nullable(&word));
    assert_eq!(cfg.is_rule_nullable(0), cfg.is_rule_nullable(0));
}

#[test]
fn word_and_rule_nullability() {
    let mut cfg = all_nullable_grammar();
    assert!(cfg.is_word_nullable(&[sym(3), sym(4), sym(2)]));
    // The empty word is vacuously nullable.
    assert!(cfg.is_word_nullable(&[]));
    // A word holding a terminal is not.
    assert!(!cfg.is_word_nullable(&[sym(3), sym(6)]));
    // Sorted rule ids: 0: S -> A B, 1: A -> epsilon, 2: B -> epsilon.
    assert!(cfg.is_rule_nullable(0));
    assert!(cfg.is_rule_nullable(1));
    assert!(cfg.is_rule_nullable(2));

    let symbol_set = augmented(&["x"], &["S", "A"]);
    let rules = vec![rule(2, &[3, 6]), rule(3, &[])];
    let mut blocked = Cfg::new(symbol_set, rules).unwrap();
    assert!(!blocked.is_rule_nullable(0));
    assert!(blocked.is_rule_nullable(1));
}

#[test]
fn construction_rejects_an_invalid_origin() {
    // N = 5, so origin id 5 is no non-terminal.
    let symbol_set = augmented(&[], &["S", "A", "B"]);
    let bad = rule(5, &[2]);
    let rules = vec![rule(2, &[3]), bad.clone()];
    match Cfg::new(symbol_set, rules) {
        Err(CfgError::InvalidRuleOrigin { rule }) => {
            assert_eq!(rule, bad);
        }
        _ => panic!("expected the invalid-origin error"),
    }
}

#[test]
fn construction_rejects_an_invalid_replacement_symbol() {
    // N + T = 7, so symbol id 9 lies outside the grammar.
    let symbol_set = augmented(&[], &["S", "A", "B"]);
    let bad = rule(2, &[3, 9, 4]);
    let rules = vec![rule(2, &[3]), bad.clone(), rule(5, &[])];
    match Cfg::new(symbol_set, rules) {
        Err(CfgError::InvalidRuleReplacement { rule, symbol }) => {
            assert_eq!(rule, bad);
            assert_eq!(symbol, sym(9));
        }
        _ => panic!("expected the invalid-replacement error"),
    }
}

#[test]
fn reverse_index_collapses_duplicate_occurrences() {
    // Non-terminals: S 2, A 3, B 4, C 5.  Rules, in sorted order:
    // 0: S -> A, 1: S -> B, 2: S -> C, 3: A -> B C B.
    let symbol_set = augmented(&[], &["S", "A", "B", "C"]);
    let rules = vec![rule(2, &[3]), rule(2, &[4]), rule(2, &[5]), rule(3, &[4, 5, 4])];
    let mut cfg = Cfg::new(symbol_set, rules).unwrap();
    let producing_b = cfg.get_rules_producing(sym(4));
    assert_eq!(producing_b, vec![1, 3]);
    assert_eq!(producing_b.iter().filter(|&&id| id == 3).count(), 1);
    let producing_c = cfg.get_rules_producing(sym(5));
    assert_eq!(producing_c, vec![2, 3]);
    assert_eq!(producing_c.iter().filter(|&&id| id == 3).count(), 1);
    let producing_a = cfg.get_rules_producing(sym(3));
    assert_eq!(producing_a, vec![0]);
    // Nothing produces the reserved start symbol here.
    assert_eq!(cfg.get_rules_producing(sym(1)), Vec::<u16>::new());
}

#[test]
fn rules_are_stably_sorted_by_origin() {
    // Non-terminals: A 2, B 3; terminal x 6.  The two B rules keep their
    // input order after the sort.
    let symbol_set = augmented(&["x"], &["A", "B"]);
    let rules = vec![rule(3, &[]), rule(2, &[]), rule(3, &[6])];
    let cfg = Cfg::new(symbol_set, rules).unwrap();
    let stored = cfg.all_rules();
    assert_eq!(cfg.nbr_rules(), 3);
    assert_eq!(stored[0].origin, sym(2));
    assert_eq!(stored[1].origin, sym(3));
    assert!(stored[1].replacement.is_empty());
    assert_eq!(stored[2].origin, sym(3));
    assert_eq!(stored[2].replacement, vec![sym(6)]);
    assert_eq!(cfg.get_rules_by_origin(sym(3)), vec![1, 2]);
    assert_eq!(cfg.get_rules_by_origin(sym(2)), vec![0]);
    assert_eq!(cfg.get_rules_by_origin(sym(0)), Vec::<u16>::new());
}

#[test]
fn symbol_classification_and_enumeration() {
    let cfg = all_nullable_grammar();
    assert_eq!(cfg.nbr_non_terminals(), 5);
    assert_eq!(cfg.nbr_terminals(), 2);
    assert_eq!(cfg.nbr_symbols(), 7);
    assert!(cfg.is_non_terminal(sym(0)));
    assert!(cfg.is_non_terminal(sym(4)));
    assert!(cfg.is_terminal(sym(5)));
    assert!(cfg.is_terminal(sym(6)));
    let non_terminals = cfg.all_non_terminals();
    assert_eq!(non_terminals.len(), 5);
    assert_eq!(non_terminals[2], sym(2));
    let terminals = cfg.all_terminals();
    assert_eq!(terminals.len(), 2);
    assert_eq!(terminals[0], sym(5));
    let symbols = cfg.all_symbols();
    assert_eq!(symbols.len(), 7);
    assert_eq!(symbols[6], sym(6));
    assert_eq!(cfg.get_symbol_set().START().id, 1);
}

#[test]
fn counting_symbols_in_a_rule() {
    // Non-terminals: A 2, B 3, C 4; terminals: ERR_TERM 5, END 6, x 7.
    let symbol_set = augmented(&["x"], &["A", "B", "C"]);
    let counted = rule(2, &[3, 4, 3, 7]);
    let rules = vec![counted.clone()];
    let cfg = Cfg::new(symbol_set, rules).unwrap();
    let (terminals, non_terminals, distinct) = cfg.count_symbols_in_rule(&counted);
    assert_eq!(terminals, 1);
    assert_eq!(non_terminals, 3);
    assert_eq!(distinct, 2);
    let epsilon = rule(2, &[]);
    assert_eq!(cfg.count_symbols_in_rule(&epsilon), (0, 0, 0));
}

#[test]
fn construction_reports_the_first_offense_in_input_order() {
    // N = 3, total = 5.  The first rule offends twice over; its origin is
    // checked before its replacement, and it is reported before the second
    // offending rule.
    let symbol_set = augmented(&[], &["S"]);
    let bad_origin = rule(9, &[9]);
    let bad_replacement = rule(1, &[9]);
    match Cfg::new(symbol_set, vec![bad_origin.clone(), bad_replacement]) {
        Err(CfgError::InvalidRuleOrigin { rule }) => {
            assert_eq!(rule, bad_origin);
        }
        _ => panic!("expected the invalid-origin error for the first offending rule"),
    }
}

#[test]
fn a_grammar_of_reserved_symbols_alone() {
    // Only the four reserved markers, no rules: nothing is nullable.
    let symbol_set = augmented(&[], &[]);
    let mut cfg = Cfg::new(symbol_set, Vec::new()).unwrap();
    assert_eq!(cfg.nbr_non_terminals(), 2);
    assert_eq!(cfg.nbr_terminals(), 2);
    assert_eq!(cfg.nbr_rules(), 0);
    assert!(!cfg.is_symbol_nullable(sym(0)));
    assert!(!cfg.is_symbol_nullable(sym(1)));
    assert!(cfg.is_word_nullable(&[]));
}
