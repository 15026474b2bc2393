use cfg_core::formal_language::Alphabet;
use cfg_core::formal_language::CfgRule;
use cfg_core::formal_language::CfgSymbolSet;
use cfg_core::formal_language::Symbol;
use cfg_core::formal_language::SymbolSet;
use cfg_core::formal_language::Token;

#[test]
fn alphabet_sorts_and_collapses_duplicates() {
    let alphabet = Alphabet::new(vec!['b', 'a', 'b', 'c', 'a']);
    assert_eq!(alphabet.size(), 3);
    assert_eq!(alphabet.id('a'), Some(0));
    assert_eq!(alphabet.id('b'), Some(1));
    assert_eq!(alphabet.id('c'), Some(2));
    assert_eq!(alphabet.id('z'), None);
}

#[test]
fn alphabet_of_nothing_is_empty() {
    let alphabet = Alphabet::new(Vec::new());
    assert_eq!(alphabet.size(), 0);
    assert_eq!(alphabet.id('a'), None);
}

#[test]
fn token_next_position_tracks_lines_and_columns() {
    let token = Token {
        token_type: Symbol { id: 3 },
        lexeme: String::from("ab\ncd"),
        line: 1,
        column: 5,
    };
    assert_eq!(token.next_position(), (2, 2));
    let plain = Token {
        token_type: Symbol { id: 3 },
        lexeme: String::from("xyz"),
        line: 7,
        column: 2,
    };
    assert_eq!(plain.next_position(), (7, 5));
    let empty = Token {
        token_type: Symbol { id: 3 },
        lexeme: String::new(),
        line: 4,
        column: 9,
    };
    assert_eq!(empty.next_position(), (4, 9));
}

#[test]
fn symbol_set_maps_names_and_ids() {
    let names = SymbolSet::new(vec![
        String::from("zero"),
        String::from("one"),
        String::from("two"),
    ]);
    assert_eq!(names.size(), 3);
    assert_eq!(names.get_representation(1), "one");
    assert_eq!(names.get_id("two"), Some(2));
    assert_eq!(names.get_id("three"), None);
}

#[test]
fn augmented_symbol_set_reserves_the_four_markers() {
    let symbol_set = CfgSymbolSet::new_augmented(
        vec![String::from("x")],
        vec![String::from("A"), String::from("B")],
    );
    // Non-terminals: ERR_NON_TERM, START, A, B; terminals: ERR_TERM, END, x.
    assert_eq!(symbol_set.offset_terminals(), 4);
    assert_eq!(symbol_set.get_non_terminals().size(), 4);
    assert_eq!(symbol_set.get_terminals().size(), 3);
    assert_eq!(symbol_set.ERR_NON_TERM().id, 0);
    assert_eq!(symbol_set.START().id, 1);
    assert_eq!(symbol_set.ERR_TERM().id, 4);
    assert_eq!(symbol_set.END().id, 5);
    assert_eq!(symbol_set.get_non_terminals().get_representation(2), "A");
    assert_eq!(symbol_set.get_terminals().get_representation(2), "x");
    assert_eq!(symbol_set.get_symbol_by_representation("START").id, 1);
    assert_eq!(symbol_set.get_symbol_by_representation("END").id, 5);
    assert_eq!(symbol_set.get_symbol_by_representation("ERR_TERM").id, 4);
    assert_eq!(symbol_set.get_symbol_by_representation("ERR_NON_TERM").id, 0);
    assert_eq!(symbol_set.get_symbol_by_representation("B").id, 3);
    assert_eq!(symbol_set.get_symbol_by_representation("x").id, 6);
}

#[test]
fn rule_shape_queries() {
    let epsilon = CfgRule { origin: Symbol { id: 2 }, replacement: Vec::new() };
    assert!(epsilon.is_empty());
    assert_eq!(epsilon.replacement_size(), 0);
    let rule = CfgRule {
        origin: Symbol { id: 2 },
        replacement: vec![Symbol { id: 3 }, Symbol { id: 4 }],
    };
    assert!(!rule.is_empty());
    assert_eq!(rule.replacement_size(), 2);
    assert_eq!(rule.origin, Symbol { id: 2 });
}
