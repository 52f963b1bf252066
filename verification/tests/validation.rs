use cfgrammar::ast::{GrammarAst, PrecedenceDecl, ProductionAst, RuleAst, SymbolRef};
use cfgrammar::firsts::Firsts;
use cfgrammar::follows::Follows;
use cfgrammar::grammar::Grammar;
use cfgrammar::marks::{mark_set, Marking};
use cfgrammar::precedence::PrecedenceTable;
use cfgrammar::reach::{productive_set, reachable_set};
use cfgrammar::symbol::{AssocKind, Symbol};
use cfgrammar::validate::{
    append_findings, has_clash, make_diagnostic, validate, Diagnostic, DiagnosticKind, Subject,
};

fn tok(name: &str) -> SymbolRef {
    SymbolRef::Token(name.to_string())
}

fn rule(name: &str) -> SymbolRef {
    SymbolRef::Rule(name.to_string())
}

fn prod(symbols: Vec<SymbolRef>) -> ProductionAst {
    ProductionAst { symbols, precedence: None }
}

fn names(list: &[&str]) -> Vec<String> {
    list.iter().map(|s| s.to_string()).collect()
}

fn rule_ast(name: &str, productions: Vec<ProductionAst>) -> RuleAst {
    RuleAst { name: name.to_string(), productions }
}

fn expr_ast() -> GrammarAst {
    GrammarAst {
        tokens: names(&["+", "*", "num"]),
        precedences: vec![
            PrecedenceDecl { kind: AssocKind::Left, tokens: names(&["+"]) },
            PrecedenceDecl { kind: AssocKind::Left, tokens: names(&["*"]) },
        ],
        rules: vec![rule_ast(
            "E",
            vec![
                prod(vec![rule("E"), tok("+"), rule("E")]),
                prod(vec![rule("E"), tok("*"), rule("E")]),
                prod(vec![tok("num")]),
            ],
        )],
        starts: names(&["E"]),
    }
}

fn report_of(ast: &GrammarAst) -> Vec<Diagnostic> {
    let g = Grammar::new(ast).unwrap();
    let firsts = Firsts::new(&g);
    let follows = Follows::new(&g, &firsts);
    let precs = PrecedenceTable::new(&g);
    validate(&g, &follows, &precs)
}

fn diag(kind: DiagnosticKind, subject: Subject, message: &str) -> Diagnostic {
    Diagnostic { kind, subject, message: message.to_string() }
}

// S -> S lt S | a | U | D ; B -> x ; U -> U a ; D has no production
fn faulty_ast() -> GrammarAst {
    GrammarAst {
        tokens: names(&["a", "x", "lt", "u"]),
        precedences: vec![
            PrecedenceDecl { kind: AssocKind::Nonassoc, tokens: names(&["lt"]) },
            PrecedenceDecl { kind: AssocKind::Left, tokens: names(&["u"]) },
        ],
        rules: vec![
            rule_ast(
                "S",
                vec![
                    prod(vec![rule("S"), tok("lt"), rule("S")]),
                    prod(vec![tok("a")]),
                    prod(vec![rule("U")]),
                    prod(vec![rule("D")]),
                ],
            ),
            rule_ast("B", vec![prod(vec![tok("x")])]),
            rule_ast("U", vec![prod(vec![rule("U"), tok("a")])]),
            rule_ast("D", vec![]),
        ],
        starts: names(&["S"]),
    }
}

#[test]
fn unreferenced_rule_is_reported_unreachable() {
    let ast = GrammarAst {
        tokens: names(&["a", "x"]),
        precedences: vec![],
        rules: vec![
            rule_ast("S", vec![prod(vec![tok("a")])]),
            rule_ast("B", vec![prod(vec![tok("x")])]),
        ],
        starts: names(&["S"]),
    };
    assert_eq!(
        report_of(&ast),
        vec![diag(
            DiagnosticKind::UnreachableNonterminal,
            Subject::Nonterminal(1),
            "unreachable nonterminal B"
        )]
    );
}

#[test]
fn sound_grammar_has_an_empty_report() {
    assert_eq!(report_of(&expr_ast()), vec![]);
}

#[test]
fn every_check_reports_and_none_stops_the_others() {
    assert_eq!(
        report_of(&faulty_ast()),
        vec![
            diag(
                DiagnosticKind::UnreachableNonterminal,
                Subject::Nonterminal(1),
                "unreachable nonterminal B"
            ),
            diag(
                DiagnosticKind::UnproductiveNonterminal,
                Subject::Nonterminal(2),
                "unproductive nonterminal U"
            ),
            diag(
                DiagnosticKind::UnproductiveNonterminal,
                Subject::Nonterminal(3),
                "unproductive nonterminal D"
            ),
            diag(DiagnosticKind::UndefinedSymbol, Subject::Nonterminal(3), "undefined symbol D"),
            diag(DiagnosticKind::UnusedPrecedence, Subject::Level(2), "unused precedence level 2"),
            diag(
                DiagnosticKind::AmbiguousPrecedence,
                Subject::Production(0),
                "ambiguous precedence in production 0"
            ),
        ]
    );
}

#[test]
fn nonassoc_production_that_its_operator_can_follow_clashes() {
    let g = Grammar::new(&faulty_ast()).unwrap();
    let firsts = Firsts::new(&g);
    let follows = Follows::new(&g, &firsts);
    let precs = PrecedenceTable::new(&g);
    assert!(has_clash(&g, &follows, &precs, 0));
    assert!(!has_clash(&g, &follows, &precs, 1));
    assert!(!has_clash(&g, &follows, &precs, 5));
    // left-associative levels never clash
    let e = Grammar::new(&expr_ast()).unwrap();
    let firsts = Firsts::new(&e);
    let follows = Follows::new(&e, &firsts);
    let precs = PrecedenceTable::new(&e);
    assert!(!has_clash(&e, &follows, &precs, 0));
}

#[test]
fn precedence_used_only_by_an_override_is_in_use() {
    let mut ast = faulty_ast();
    ast.rules[0].productions[1].precedence = Some("u".to_string());
    let report = report_of(&ast);
    assert!(report.iter().all(|d| d.kind != DiagnosticKind::UnusedPrecedence));
}

#[test]
fn diagnostics_are_made_and_appended_in_increasing_order() {
    let g = Grammar::new(&faulty_ast()).unwrap();
    assert_eq!(
        make_diagnostic(&g, DiagnosticKind::UnusedPrecedence, 0),
        diag(DiagnosticKind::UnusedPrecedence, Subject::Level(1), "unused precedence level 1")
    );
    assert_eq!(
        make_diagnostic(&g, DiagnosticKind::AmbiguousPrecedence, 5),
        diag(
            DiagnosticKind::AmbiguousPrecedence,
            Subject::Production(5),
            "ambiguous precedence in production 5"
        )
    );
    let mut set = cfgrammar::index_set::IndexSet::new(4);
    set.insert(2);
    set.insert(0);
    let mut out = vec![make_diagnostic(&g, DiagnosticKind::UndefinedSymbol, 3)];
    append_findings(&g, DiagnosticKind::UnproductiveNonterminal, &set, 4, &mut out);
    assert_eq!(
        out,
        vec![
            diag(DiagnosticKind::UndefinedSymbol, Subject::Nonterminal(3), "undefined symbol D"),
            diag(
                DiagnosticKind::UnproductiveNonterminal,
                Subject::Nonterminal(0),
                "unproductive nonterminal S"
            ),
            diag(
                DiagnosticKind::UnproductiveNonterminal,
                Subject::Nonterminal(2),
                "unproductive nonterminal U"
            ),
        ]
    );
}

#[test]
fn marks_of_the_faulty_grammar() {
    let g = Grammar::new(&faulty_ast()).unwrap();
    assert_eq!(mark_set(&g, Marking::Owners).to_vec(), vec![0, 1, 2, 4]);
    assert_eq!(mark_set(&g, Marking::Nonterminals).to_vec(), vec![0, 2, 3]);
    assert_eq!(mark_set(&g, Marking::Terminals).to_vec(), vec![0, 1, 2, 4]);
    assert_eq!(mark_set(&g, Marking::Levels).to_vec(), vec![0]);
}

// All nonterminals reached from the augmented start, by a search of the
// production graph that knows nothing of the library's sets.
fn reachable_by_search(g: &Grammar) -> Vec<u32> {
    let mut seen = vec![g.augmented_rule()];
    let mut queue = vec![g.augmented_rule()];
    while let Some(a) = queue.pop() {
        for p in 0..g.prods_len() {
            if g.prod_lhs(p) == a {
                for s in g.prod_rhs(p) {
                    if let Symbol::Nonterm(b) = s {
                        if !seen.contains(b) {
                            seen.push(*b);
                            queue.push(*b);
                        }
                    }
                }
            }
        }
    }
    seen.sort();
    seen
}

// Whether `s` derives a string of terminals by a tree of height at most
// `depth`, by trying every production.
fn derives_terminals(g: &Grammar, s: Symbol, depth: u32) -> bool {
    match s {
        Symbol::Term(_) => true,
        Symbol::Nonterm(a) => {
            if depth == 0 {
                return false;
            }
            (0..g.prods_len()).any(|p| {
                g.prod_lhs(p) == a
                    && g.prod_rhs(p).iter().all(|x| derives_terminals(g, *x, depth - 1))
            })
        }
    }
}

fn small_grammars() -> Vec<GrammarAst> {
    let chain = GrammarAst {
        tokens: names(&["c", "d"]),
        precedences: vec![],
        rules: vec![
            rule_ast("A", vec![prod(vec![rule("B"), rule("B")]), prod(vec![rule("L")])]),
            rule_ast("B", vec![prod(vec![rule("C"), rule("C")])]),
            rule_ast("C", vec![prod(vec![tok("c")]), prod(vec![rule("A"), tok("d")])]),
            rule_ast("L", vec![prod(vec![rule("L"), tok("c")]), prod(vec![rule("M")])]),
            rule_ast("M", vec![prod(vec![rule("L")])]),
            rule_ast("X", vec![prod(vec![rule("Y")])]),
            rule_ast("Y", vec![prod(vec![]), prod(vec![rule("X"), rule("A")])]),
        ],
        starts: names(&["A"]),
    };
    vec![expr_ast(), faulty_ast(), chain]
}

#[test]
fn reachability_agrees_with_search() {
    for ast in small_grammars() {
        let g = Grammar::new(&ast).unwrap();
        assert_eq!(reachable_set(&g).to_vec(), reachable_by_search(&g));
    }
}

#[test]
fn productivity_agrees_with_search() {
    for ast in small_grammars() {
        let g = Grammar::new(&ast).unwrap();
        let depth = g.nonterms_len() + 1;
        let expected: Vec<u32> = (0..g.nonterms_len())
            .filter(|a| derives_terminals(&g, Symbol::Nonterm(*a), depth))
            .collect();
        assert_eq!(productive_set(&g).to_vec(), expected);
    }
}

#[test]
fn reachable_and_productive_sets_of_the_faulty_grammar() {
    let g = Grammar::new(&faulty_ast()).unwrap();
    assert_eq!(reachable_set(&g).to_vec(), vec![0, 2, 3, 4]);
    assert_eq!(productive_set(&g).to_vec(), vec![0, 1, 4]);
}

#[test]
fn analyses_run_one_after_the_other() {
    let g = Grammar::new(&faulty_ast()).unwrap();
    let all = cfgrammar::validate::analyze(&g);
    assert_eq!(all.firsts.firsts(0).to_vec(), vec![0]);
    assert_eq!(all.follows.follow_set(0).to_vec(), vec![2, 4]);
    assert_eq!(all.precedences.of_production(1), None);
    assert_eq!(all.report, report_of(&faulty_ast()));
    assert_eq!(all.report.len(), 6);
}
