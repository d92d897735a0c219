use parsegen::grammar::{Grammar, GrammarError};
use parsegen::ll_parser::{LLParser, LlParseError};
use parsegen::lr_items::ItemTable;
use parsegen::lr_parser::{Action, ConflictKind, LRParser, LrBuildError, LrParseError, Mode};
use parsegen::symbol::Symbol;

fn tokens(text: &str) -> Vec<String> {
    text.split_whitespace().map(|t| t.to_string()).collect()
}

fn symbols(text: &str) -> Vec<Symbol> {
    text.split_whitespace().map(|t| Symbol::from_label(t.to_string())).collect()
}

fn grammar(text: &str) -> Grammar {
    Grammar::from_tokens(&tokens(text)).unwrap()
}

fn labels(v: &[Symbol]) -> Vec<String> {
    let mut out: Vec<String> = v.iter().map(|s| s.label.clone()).collect();
    out.sort();
    out
}

fn sym(label: &str) -> Symbol {
    Symbol::from_label(label.to_string())
}

const NESTED: &str = "Start -> S $ ; S -> A c ; A -> a A b | ;";
const SUM: &str = "Start -> E $ ; E -> T plus E | T ; T -> num ;";
const LEFT_RECURSIVE: &str = "Start -> E $ ; E -> E plus num | num ;";

#[test]
fn symbol_classification() {
    assert!(!sym("Start").terminal);
    assert!(!sym("A").terminal);
    assert!(sym("a").terminal);
    assert!(sym("$").terminal);
    assert!(sym("plus").terminal);
    assert!(Symbol::from_label(String::new()).terminal);
    assert_eq!(sym("Expr").to_string(), "Expr");
}

#[test]
fn rule_blocks_for_one_head_are_merged() {
    let g = grammar("Start -> A $ ; A -> a ; A -> b | ;");
    assert_eq!(labels(&g.get_rhs(&sym("A"), 0).unwrap()), vec!["a"]);
    assert_eq!(labels(&g.get_rhs(&sym("A"), 1).unwrap()), vec!["b"]);
    assert_eq!(g.get_rhs(&sym("A"), 2).unwrap().len(), 0);
    assert!(g.get_rhs(&sym("A"), 3).is_none());
    assert!(g.get_rhs(&sym("B"), 0).is_none());
    let start = g.get_rhs(&sym("Start"), 0).unwrap();
    assert_eq!(start[0].label, "A");
    assert_eq!(start[1].label, "$");
}

#[test]
fn malformed_text_is_a_syntax_error() {
    assert!(matches!(Grammar::from_tokens(&tokens("Start -> a")), Err(GrammarError::Syntax { .. })));
    assert!(matches!(Grammar::from_tokens(&tokens("Start a ;")), Err(GrammarError::Syntax { .. })));
    assert!(matches!(Grammar::from_tokens(&tokens("; -> a ;")), Err(GrammarError::Syntax { .. })));
    assert!(matches!(Grammar::from_tokens(&tokens("Start -> a -> b ;")), Err(GrammarError::Syntax { .. })));
    match Grammar::from_tokens(&tokens("Start -> a ; B -> b")) {
        Err(GrammarError::Syntax { block, expected }) => {
            assert_eq!(block, 1);
            assert_eq!(expected, ";");
        },
        _ => panic!("expected a syntax error"),
    }
}

#[test]
fn undefined_nonterminal_is_rejected() {
    match Grammar::from_tokens(&tokens("Start -> X $ ;")) {
        Err(GrammarError::Undefined(s)) => assert_eq!(s.label, "X"),
        _ => panic!("expected an undefined nonterminal"),
    }
}

#[test]
fn terminal_head_is_rejected() {
    match Grammar::from_tokens(&tokens("Start -> a ; a -> b ;")) {
        Err(GrammarError::TerminalHead(s)) => assert_eq!(s.label, "a"),
        _ => panic!("expected a terminal head"),
    }
}

#[test]
fn nullable_set_is_least_fixpoint() {
    let g = grammar("Start -> S $ ; S -> A B ; A -> a | ; B -> b | A ; C -> C c ; D -> C | ;");
    assert!(g.symbol_derives_lambda(&sym("A")));
    assert!(g.symbol_derives_lambda(&sym("B")));
    assert!(g.symbol_derives_lambda(&sym("S")));
    assert!(g.symbol_derives_lambda(&sym("D")));
    assert!(!g.symbol_derives_lambda(&sym("C")));
    assert!(!g.symbol_derives_lambda(&sym("Start")));
    assert!(!g.symbol_derives_lambda(&sym("a")));
    assert!(g.rhs_derives_lambda(&symbols("A B S")));
    assert!(g.rhs_derives_lambda(&symbols("")));
    assert!(!g.rhs_derives_lambda(&symbols("A b")));
    assert!(!g.rhs_derives_lambda(&symbols("C")));
}

#[test]
fn first_and_follow_sets() {
    let g = grammar(NESTED);
    assert_eq!(labels(&g.first_of_symbol(&sym("S"))), vec!["a", "c"]);
    assert_eq!(labels(&g.first_of_symbol(&sym("A"))), vec!["a"]);
    assert_eq!(labels(&g.first_of_symbol(&sym("Start"))), vec!["a", "c"]);
    assert_eq!(labels(&g.first_of_symbol(&sym("b"))), vec!["b"]);
    assert_eq!(labels(&g.first_of_symbol(&sym("zzz"))), vec!["zzz"]);
    assert!(g.first_of_symbol(&sym("Nope")).is_empty());
    assert_eq!(labels(&g.follow(&sym("A"))), vec!["b", "c"]);
    assert_eq!(labels(&g.follow(&sym("S"))), vec!["$"]);
    assert_eq!(labels(&g.follow(&sym("b"))), vec!["b", "c"]);
    assert!(g.follow(&sym("Start")).is_empty());
    assert!(g.follow(&sym("Nope")).is_empty());
    assert_eq!(labels(&g.first_of_rhs(&symbols("A c"))), vec!["a", "c"]);
    assert_eq!(labels(&g.first_of_rhs(&symbols("A A b"))), vec!["a", "b"]);
    assert!(g.first_of_rhs(&symbols("")).is_empty());
}

#[test]
fn first_set_through_recursion() {
    let g = grammar("Start -> E $ ; E -> E plus T | T ; T -> lp E rp | id ;");
    assert_eq!(labels(&g.first_of_symbol(&sym("E"))), vec!["id", "lp"]);
    assert_eq!(labels(&g.follow(&sym("E"))), vec!["$", "plus", "rp"]);
    assert_eq!(labels(&g.follow(&sym("T"))), vec!["$", "plus", "rp"]);
}

#[test]
fn nested_input_is_accepted_by_both_parsers() {
    let ll = LLParser::new(grammar(NESTED)).unwrap();
    let lr = LRParser::new(grammar(NESTED), Mode::SLR).unwrap();
    ll.parse(&symbols("a a b b c $")).unwrap();
    lr.parse(&symbols("a a b b c $")).unwrap();
    ll.parse(&symbols("c $")).unwrap();
    lr.parse(&symbols("c $")).unwrap();
    ll.parse(&symbols("a b c $")).unwrap();
    lr.parse(&symbols("a b c $")).unwrap();
}

#[test]
fn mismatched_nesting_is_rejected() {
    let ll = LLParser::new(grammar(NESTED)).unwrap();
    match ll.parse(&symbols("a a b c $")) {
        Err(LlParseError::UnexpectedToken { found, expected }) => {
            assert_eq!(found.label, "c");
            assert_eq!(expected.label, "b");
        },
        other => panic!("expected an unexpected token, got {:?}", other),
    }
    let lr = LRParser::new(grammar(NESTED), Mode::SLR).unwrap();
    match lr.parse(&symbols("a a b c $")) {
        Err(LrParseError::NoEntry { token, .. }) => assert_eq!(token.unwrap().label, "c"),
        other => panic!("expected a missing entry, got {:?}", other),
    }
}

#[test]
fn ll_input_that_ends_early() {
    let ll = LLParser::new(grammar(NESTED)).unwrap();
    match ll.parse(&symbols("a a b b c")) {
        Err(LlParseError::UnexpectedEnd { expected }) => assert_eq!(expected.label, "$"),
        other => panic!("expected an early end, got {:?}", other),
    }
}

#[test]
fn lr_input_that_ends_early() {
    let lr = LRParser::new(grammar(NESTED), Mode::SLR).unwrap();
    match lr.parse(&symbols("a a b b c")) {
        Err(LrParseError::NoEntry { token, .. }) => assert!(token.is_none()),
        other => panic!("expected a missing entry, got {:?}", other),
    }
}

#[test]
fn ll_table_is_deterministic() {
    let g = grammar(NESTED);
    let first = LLParser::new(grammar(NESTED)).unwrap();
    let second = LLParser::new(grammar(NESTED)).unwrap();
    let n = g.num_symbols();
    for a in 0..n {
        for t in 0..n {
            assert_eq!(first.predict(a, t), second.predict(a, t));
        }
    }
    let a = g.symbol_id(&sym("A")).unwrap();
    let big_a = |t: &str| first.predict(a, g.symbol_id(&sym(t)).unwrap());
    assert_eq!(big_a("a"), Some(0));
    assert_eq!(big_a("b"), Some(1));
    assert_eq!(big_a("c"), Some(1));
    assert_eq!(big_a("$"), None);
}

#[test]
fn ll_conflict_names_the_pair() {
    let g = grammar("Start -> S $ ; S -> a b | a c ;");
    match LLParser::new(g) {
        Err(c) => {
            assert_eq!(c.lhs, sym("S"));
            assert_eq!(c.terminal, sym("a"));
        },
        Ok(_) => panic!("expected a conflict"),
    }
}

#[test]
fn left_recursive_grammar_has_a_finite_automaton() {
    let lr = LRParser::new(grammar(LEFT_RECURSIVE), Mode::LR0).unwrap();
    assert_eq!(lr.num_states(), 6);
    lr.parse(&symbols("num plus num plus num $")).unwrap();
    lr.parse(&symbols("num $")).unwrap();
    assert!(lr.parse(&symbols("num plus $")).is_err());
}

#[test]
fn self_referencing_grammar_terminates() {
    let lr = LRParser::new(grammar("Start -> E $ ; E -> E E plus | num ;"), Mode::SLR).unwrap();
    lr.parse(&symbols("num num plus num plus $")).unwrap();
    assert!(lr.parse(&symbols("num plus $")).is_err());
}

#[test]
fn lr0_shift_reduce_conflict_is_named() {
    match LRParser::new(grammar(SUM), Mode::LR0) {
        Err(LrBuildError::Conflicts(ks)) => {
            assert_eq!(ks.len(), 1);
            assert!(matches!(ks[0].kind, ConflictKind::ShiftReduce));
            assert_eq!(ks[0].state, 2);
            assert_eq!(ks[0].symbol, Some(sym("plus")));
            assert_eq!(ks[0].lhs, sym("E"));
            assert_eq!(ks[0].rhs_id, 1);
            assert!(ks[0].earlier.is_none());
        },
        _ => panic!("expected a conflict"),
    }
}

#[test]
fn slr_resolves_the_same_grammar() {
    let lr = LRParser::new(grammar(SUM), Mode::SLR).unwrap();
    lr.parse(&symbols("num plus num plus num $")).unwrap();
    lr.parse(&symbols("num $")).unwrap();
    assert!(lr.parse(&symbols("plus num $")).is_err());
}

#[test]
fn every_conflict_is_reported() {
    let text = "Start -> S $ ; S -> E semi F ; E -> T plus E | T ; T -> num ; F -> U times F | U ; U -> id ;";
    match LRParser::new(grammar(text), Mode::LR0) {
        Err(LrBuildError::Conflicts(ks)) => {
            assert_eq!(ks.len(), 2);
            assert!(ks.iter().all(|k| matches!(k.kind, ConflictKind::ShiftReduce)));
            assert_ne!(ks[0].state, ks[1].state);
        },
        _ => panic!("expected conflicts"),
    }
    assert!(LRParser::new(grammar(text), Mode::SLR).is_ok());
}

#[test]
fn reduce_reduce_conflict() {
    match LRParser::new(grammar("Start -> S $ ; S -> A | B ; A -> x ; B -> x ;"), Mode::SLR) {
        Err(LrBuildError::Conflicts(ks)) => {
            assert_eq!(ks.len(), 2);
            for k in ks.iter() {
                assert!(matches!(k.kind, ConflictKind::ReduceReduce));
                assert_eq!(k.lhs, sym("B"));
                assert_eq!(k.earlier, Some((sym("A"), 0)));
            }
            assert_eq!(ks[0].state, ks[1].state);
            assert_eq!(ks[0].symbol, Some(sym("$")));
            assert_eq!(ks[1].symbol, None);
        },
        _ => panic!("expected conflicts"),
    }
}

#[test]
fn lr_needs_start() {
    assert!(matches!(LRParser::new(grammar("S -> a ;"), Mode::SLR), Err(LrBuildError::NoStart)));
}

#[test]
fn lr_table_entries() {
    let lr = LRParser::new(grammar(LEFT_RECURSIVE), Mode::LR0).unwrap();
    let g = lr.grammar();
    let start = g.symbol_id(&sym("Start")).unwrap();
    let num = g.symbol_id(&sym("num")).unwrap();
    assert!(matches!(lr.action(0, start), Some(Action::Accept)));
    assert!(matches!(lr.action(0, num), Some(Action::Shift(_))));
    let end = g.num_symbols();
    let mut reduces = 0;
    for state in 0..lr.num_states() {
        if let Some(Action::Reduce(_, _)) = lr.action(state, end) {
            reduces += 1;
        }
    }
    assert_eq!(reduces, 3);
}

const BNF: &str = "Start -> A C $ ; C -> c | ; A -> a B C d | B Q ; B -> b B | ; Q -> q | ;";
const PREFIX: &str = "Start -> E $ ; E -> plus E E | num ;";
const SELF_REFERENCING: &str = "Start -> E $ ; E -> E plus num | num ;";

#[test]
fn test_closure() {
    let parser = LRParser::new(grammar(BNF), Mode::SLR).unwrap();
    let program: Vec<Symbol> = vec![];
    assert!(parser.parse(&program).is_err());
}

#[test]
fn test_ll() {
    let parser = LLParser::new(grammar(BNF)).unwrap();
    parser.parse(&symbols("a b b d c $")).unwrap();
}

#[test]
fn test_slr_success() {
    let parser = LRParser::new(grammar(BNF), Mode::SLR).unwrap();
    parser.parse(&symbols("a b b d c $")).unwrap();
}

#[test]
fn lr0_fails_where_slr_succeeds() {
    assert!(matches!(LRParser::new(grammar(BNF), Mode::LR0), Err(LrBuildError::Conflicts(_))));
}

#[test]
fn test_state_building() {
    let parser = LRParser::new(grammar(PREFIX), Mode::LR0).unwrap();
    parser.parse(&symbols("plus plus num num num $")).unwrap();
}

#[test]
fn test_neverending() {
    let parser = LRParser::new(grammar(SELF_REFERENCING), Mode::LR0).unwrap();
    assert_eq!(parser.num_states(), 6);
    let g = grammar(SELF_REFERENCING);
    let table = ItemTable::new(&g);
    let adj = table.predict_graph(&g);
    let e = g.symbol_id(&sym("E")).unwrap();
    let mut kernel = vec![false; table.items.len()];
    kernel[table.base[e][0]] = true;
    let closure = table.closure(&g, &adj, &kernel);
    assert_eq!(closure_items(&g, &table, &closure), vec![("E".to_string(), 1, 0)]);
}

#[test]
fn ambiguous_grammar_has_conflicts() {
    match LRParser::new(grammar("Start -> E $ ; E -> E plus E | num ;"), Mode::LR0) {
        Err(LrBuildError::Conflicts(ks)) => assert!(!ks.is_empty()),
        _ => panic!("an ambiguous grammar has conflicts"),
    }
}

fn closure_items(g: &Grammar, table: &ItemTable, closure: &[bool]) -> Vec<(String, usize, usize)> {
    let mut out: Vec<(String, usize, usize)> = Vec::new();
    for u in 0..closure.len() {
        if closure[u] {
            let (a, j, d) = table.items[u];
            out.push((g.symbol(a).label.clone(), j, d));
        }
    }
    out.sort();
    out
}

#[test]
fn closure_leaves_out_the_kernel() {
    let g = grammar(NESTED);
    let table = ItemTable::new(&g);
    let adj = table.predict_graph(&g);
    let start = g.symbol_id(&sym("Start")).unwrap();
    let mut kernel = vec![false; table.items.len()];
    kernel[table.base[start][0]] = true;
    let closure = table.closure(&g, &adj, &kernel);
    assert_eq!(
        closure_items(&g, &table, &closure),
        vec![("A".to_string(), 0, 0), ("A".to_string(), 1, 0), ("S".to_string(), 0, 0)]
    );
}

#[test]
fn lr0_reports_one_record_per_conflicting_item() {
    match LRParser::new(grammar(NESTED), Mode::LR0) {
        Err(LrBuildError::Conflicts(ks)) => {
            assert_eq!(ks.len(), 5);
            assert!(ks.iter().all(|k| matches!(k.kind, ConflictKind::ShiftReduce)));
            assert!(ks.iter().all(|k| k.lhs == sym("A") && k.rhs_id == 1));
            let mut symbols: Vec<String> = ks.iter().map(|k| k.symbol.as_ref().unwrap().label.clone()).collect();
            symbols.sort();
            assert_eq!(symbols, vec!["A", "A", "S", "a", "a"]);
        },
        _ => panic!("expected conflicts"),
    }
}

#[test]
fn lr_table_is_deterministic() {
    let first = LRParser::new(grammar(BNF), Mode::SLR).unwrap();
    let second = LRParser::new(grammar(BNF), Mode::SLR).unwrap();
    assert_eq!(first.num_states(), second.num_states());
    let columns = first.grammar().num_symbols() + 1;
    for state in 0..first.num_states() {
        for column in 0..columns {
            assert_eq!(format!("{:?}", first.action(state, column)), format!("{:?}", second.action(state, column)));
        }
    }
}

#[test]
fn symbol_from_text_and_equality() {
    let a: Symbol = Symbol::from("Expr".to_string());
    assert!(!a.terminal);
    assert_eq!(a, sym("Expr"));
    assert_ne!(sym("x"), sym("X"));
    assert!(sym("x").same_as(&sym("x")));
    assert!(!sym("x").same_as(&sym("y")));
    assert_eq!(sym("x").duplicate(), sym("x"));
    let start = Symbol::nonterminal("Start");
    assert_eq!(start.label, "Start");
    assert!(!start.terminal);
    let lower = Symbol::nonterminal("lower");
    assert!(!lower.terminal);
}
