use cfgrammar::ast::{
    GrammarAst, GrammarError, PrecedenceDecl, ProductionAst, RuleAst, SymbolRef,
};
use cfgrammar::grammar::Grammar;
use cfgrammar::symbol::{AssocKind, Symbol, YaccKind};

fn tok(name: &str) -> SymbolRef {
    SymbolRef::Token(name.to_string())
}

fn rule(name: &str) -> SymbolRef {
    SymbolRef::Rule(name.to_string())
}

fn prod(symbols: Vec<SymbolRef>) -> ProductionAst {
    ProductionAst { symbols, precedence: None }
}

fn names(list: &[&str]) -> Vec<String> {
    list.iter().map(|s| s.to_string()).collect()
}

fn rule_ast(name: &str, productions: Vec<ProductionAst>) -> RuleAst {
    RuleAst { name: name.to_string(), productions }
}

fn expr_ast() -> GrammarAst {
    GrammarAst {
        tokens: names(&["+", "*", "num"]),
        precedences: vec![
            PrecedenceDecl { kind: AssocKind::Left, tokens: names(&["+"]) },
            PrecedenceDecl { kind: AssocKind::Left, tokens: names(&["*"]) },
        ],
        rules: vec![rule_ast(
            "E",
            vec![
                prod(vec![rule("E"), tok("+"), rule("E")]),
                prod(vec![rule("E"), tok("*"), rule("E")]),
                prod(vec![tok("num")]),
            ],
        )],
        starts: names(&["E"]),
    }
}

fn error_of(ast: &GrammarAst) -> GrammarError {
    match Grammar::new(ast) {
        Err(e) => e,
        Ok(_) => panic!("the grammar was built"),
    }
}

#[test]
fn expression_grammar_is_indexed_densely() {
    let g = Grammar::new(&expr_ast()).unwrap();
    assert_eq!(g.terms_len(), 4);
    assert_eq!(g.nonterms_len(), 2);
    assert_eq!(g.prods_len(), 4);
    assert_eq!(g.eof_term(), 3);
    assert_eq!(g.start_rule(), 0);
    assert_eq!(g.augmented_rule(), 1);
    assert_eq!(g.augmented_prod(), 3);
    assert_eq!(g.term_by_name("num"), Some(2));
    assert_eq!(g.term_by_name("nope"), None);
    assert_eq!(g.rule_by_name("E"), Some(0));
    assert_eq!(g.rule_by_name("F"), None);
    assert_eq!(g.term_name(0), "+");
    assert_eq!(g.term_name(3), "$");
    assert_eq!(g.rule_name(0), "E");
    assert_eq!(g.rule_name(1), "^");
    assert_eq!(g.symbol_name(Symbol::Term(1)), "*");
    assert_eq!(g.symbol_name(Symbol::Nonterm(0)), "E");
    assert_eq!(g.prod_lhs(1), 0);
    assert_eq!(
        g.prod_rhs(1),
        &vec![Symbol::Nonterm(0), Symbol::Term(1), Symbol::Nonterm(0)]
    );
    assert_eq!(g.prod_rhs(3), &vec![Symbol::Nonterm(0), Symbol::Term(3)]);
    assert_eq!(g.prod_lhs(3), 1);
    assert_eq!(g.prod(2).rhs, vec![Symbol::Term(2)]);
    assert_eq!(g.prod(2).prec, None);
    assert_eq!(g.rule_prods(0), vec![0, 1, 2]);
    assert_eq!(g.rule_prods(1), vec![3]);
    assert_eq!(g.rule_prods(9), Vec::<u32>::new());
}

#[test]
fn tokens_map_lists_the_terminals_in_use() {
    let mut ast = expr_ast();
    ast.tokens.push("spare".to_string());
    let g = Grammar::new(&ast).unwrap();
    assert_eq!(
        g.tokens_map(),
        vec![
            ("+".to_string(), 0),
            ("*".to_string(), 1),
            ("num".to_string(), 2)
        ]
    );
}

#[test]
fn undeclared_terminal_is_rejected() {
    let mut ast = expr_ast();
    ast.rules[0].productions.push(prod(vec![tok("num"), tok("FOO")]));
    assert_eq!(error_of(&ast), GrammarError::UnknownToken("FOO".to_string()));
}

#[test]
fn undeclared_rule_is_rejected() {
    let mut ast = expr_ast();
    ast.rules[0].productions.push(prod(vec![rule("F")]));
    assert_eq!(error_of(&ast), GrammarError::UnknownRule("F".to_string()));
}

#[test]
fn first_bad_reference_counts() {
    let mut ast = expr_ast();
    ast.rules[0].productions.insert(1, prod(vec![tok("num"), rule("G"), tok("FOO")]));
    ast.rules[0].productions.insert(0, ProductionAst {
        symbols: vec![tok("num")],
        precedence: Some("BAR".to_string()),
    });
    assert_eq!(error_of(&ast), GrammarError::UnknownToken("BAR".to_string()));
    ast.rules[0].productions.remove(0);
    assert_eq!(error_of(&ast), GrammarError::UnknownRule("G".to_string()));
}

#[test]
fn duplicate_token_is_rejected() {
    let mut ast = expr_ast();
    ast.tokens = names(&["+", "*", "num", "*", "+"]);
    assert_eq!(error_of(&ast), GrammarError::DuplicateToken("*".to_string()));
}

#[test]
fn duplicate_rule_is_rejected() {
    let mut ast = expr_ast();
    ast.rules.push(rule_ast("F", vec![prod(vec![tok("num")])]));
    ast.rules.push(rule_ast("E", vec![prod(vec![tok("num")])]));
    ast.rules.push(rule_ast("F", vec![prod(vec![tok("num")])]));
    assert_eq!(error_of(&ast), GrammarError::DuplicateRule("E".to_string()));
}

#[test]
fn missing_start_is_rejected() {
    let mut ast = expr_ast();
    ast.starts = vec![];
    assert_eq!(error_of(&ast), GrammarError::MissingStart);
}

#[test]
fn conflicting_start_is_rejected() {
    let mut ast = expr_ast();
    ast.rules.push(rule_ast("F", vec![prod(vec![tok("num")])]));
    ast.starts = names(&["E", "E", "F", "G"]);
    assert_eq!(error_of(&ast), GrammarError::ConflictingStart("F".to_string()));
    ast.starts = names(&["E", "E"]);
    assert!(Grammar::new(&ast).is_ok());
}

#[test]
fn unknown_start_is_rejected() {
    let mut ast = expr_ast();
    ast.starts = names(&["Expr"]);
    assert_eq!(error_of(&ast), GrammarError::UnknownStart("Expr".to_string()));
}

#[test]
fn precedence_of_an_undeclared_token_is_rejected() {
    let mut ast = expr_ast();
    ast.precedences.push(PrecedenceDecl { kind: AssocKind::Right, tokens: names(&["num", "^"]) });
    assert_eq!(error_of(&ast), GrammarError::UnknownToken("^".to_string()));
}

#[test]
fn second_precedence_of_a_token_is_rejected() {
    let mut ast = expr_ast();
    ast.precedences.push(PrecedenceDecl { kind: AssocKind::Right, tokens: names(&["num", "+"]) });
    assert_eq!(error_of(&ast), GrammarError::DuplicatePrecedence("+".to_string()));
}

#[test]
fn checks_come_in_order() {
    // a grammar with everything wrong reports the duplicate token first
    let mut ast = expr_ast();
    ast.tokens.push("+".to_string());
    ast.rules.push(rule_ast("E", vec![prod(vec![tok("FOO")])]));
    ast.starts = vec![];
    ast.precedences.push(PrecedenceDecl { kind: AssocKind::Left, tokens: names(&["+"]) });
    assert_eq!(error_of(&ast), GrammarError::DuplicateToken("+".to_string()));
    ast.tokens.pop();
    assert_eq!(error_of(&ast), GrammarError::DuplicateRule("E".to_string()));
    ast.rules[1].name = "F".to_string();
    assert_eq!(error_of(&ast), GrammarError::MissingStart);
    ast.starts = names(&["E"]);
    assert_eq!(error_of(&ast), GrammarError::DuplicatePrecedence("+".to_string()));
    ast.precedences.pop();
    assert_eq!(error_of(&ast), GrammarError::UnknownToken("FOO".to_string()));
}

#[test]
fn rule_without_productions_is_representable() {
    let mut ast = expr_ast();
    ast.rules.push(rule_ast("Empty", vec![]));
    let g = Grammar::new(&ast).unwrap();
    assert_eq!(g.nonterms_len(), 3);
    assert_eq!(g.rule_prods(1), Vec::<u32>::new());
    assert_eq!(g.augmented_rule(), 2);
}

#[test]
fn yacc_kinds_are_distinct_values() {
    let kind = YaccKind::Original;
    let copy = kind;
    assert_eq!(kind, copy);
    assert_ne!(YaccKind::Original, YaccKind::Eco);
}
