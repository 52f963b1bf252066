use cfgrammar::ast::{GrammarAst, PrecedenceDecl, ProductionAst, RuleAst, SymbolRef};
use cfgrammar::firsts::Firsts;
use cfgrammar::follows::Follows;
use cfgrammar::grammar::Grammar;
use cfgrammar::index_set::IndexSet;
use cfgrammar::precedence::{
    production_precedence, resolve_reduce_reduce, resolve_shift_reduce, PrecedenceTable,
    Resolution,
};
use cfgrammar::symbol::{AssocKind, Precedence, Symbol};

fn tok(name: &str) -> SymbolRef {
    SymbolRef::Token(name.to_string())
}

fn rule(name: &str) -> SymbolRef {
    SymbolRef::Rule(name.to_string())
}

fn prod(symbols: Vec<SymbolRef>) -> ProductionAst {
    ProductionAst { symbols, precedence: None }
}

fn names(list: &[&str]) -> Vec<String> {
    list.iter().map(|s| s.to_string()).collect()
}

fn rule_ast(name: &str, productions: Vec<ProductionAst>) -> RuleAst {
    RuleAst { name: name.to_string(), productions }
}

fn expr_ast() -> GrammarAst {
    GrammarAst {
        tokens: names(&["+", "*", "num"]),
        precedences: vec![
            PrecedenceDecl { kind: AssocKind::Left, tokens: names(&["+"]) },
            PrecedenceDecl { kind: AssocKind::Left, tokens: names(&["*"]) },
        ],
        rules: vec![rule_ast(
            "E",
            vec![
                prod(vec![rule("E"), tok("+"), rule("E")]),
                prod(vec![rule("E"), tok("*"), rule("E")]),
                prod(vec![tok("num")]),
            ],
        )],
        starts: names(&["E"]),
    }
}

// S -> A 'b' | A ; A -> (empty) ; B -> A A | 'c'
fn nullable_ast() -> GrammarAst {
    GrammarAst {
        tokens: names(&["b", "c"]),
        precedences: vec![],
        rules: vec![
            rule_ast("S", vec![prod(vec![rule("A"), tok("b")]), prod(vec![rule("A"), rule("B")])]),
            rule_ast("A", vec![prod(vec![])]),
            rule_ast("B", vec![prod(vec![rule("A"), rule("A")]), prod(vec![tok("c")])]),
        ],
        starts: names(&["S"]),
    }
}

#[test]
fn expression_grammar_first_and_follow() {
    let g = Grammar::new(&expr_ast()).unwrap();
    let firsts = Firsts::new(&g);
    assert_eq!(firsts.firsts(0).to_vec(), vec![2]);
    assert!(!firsts.is_nullable(Symbol::Nonterm(0)));
    let follows = Follows::new(&g, &firsts);
    assert_eq!(follows.follow_set(0).to_vec(), vec![0, 1, 3]);
    assert_eq!(follows.follow_set(1).to_vec(), Vec::<u32>::new());
}

#[test]
fn expression_grammar_prefers_shift_on_tighter_operator() {
    let g = Grammar::new(&expr_ast()).unwrap();
    let table = PrecedenceTable::new(&g);
    let plus = Some(Precedence { level: 1, kind: AssocKind::Left });
    let times = Some(Precedence { level: 2, kind: AssocKind::Left });
    assert_eq!(table.of_terminal(0), plus);
    assert_eq!(table.of_terminal(1), times);
    assert_eq!(table.of_terminal(2), None);
    assert_eq!(table.of_production(0), plus);
    assert_eq!(table.of_production(1), times);
    assert_eq!(table.of_production(2), None);
    assert_eq!(table.of_production(3), None);
    // E + E with '*' ahead: shift
    assert_eq!(table.resolve(0, 1), Resolution::Shift);
    // E * E with '+' ahead: reduce
    assert_eq!(table.resolve(1, 0), Resolution::Reduce);
    // E + E with '+' ahead: left associative, reduce
    assert_eq!(table.resolve(0, 0), Resolution::Reduce);
    // num has no precedence
    assert_eq!(table.resolve(2, 0), Resolution::Unresolved);
    assert_eq!(table.resolve(0, 2), Resolution::Unresolved);
}

#[test]
fn epsilon_rule_is_nullable_and_inherits_follow() {
    let g = Grammar::new(&nullable_ast()).unwrap();
    let firsts = Firsts::new(&g);
    let a = g.rule_by_name("A").unwrap();
    let b = g.rule_by_name("B").unwrap();
    let s = g.rule_by_name("S").unwrap();
    assert_eq!(firsts.firsts(a).to_vec(), Vec::<u32>::new());
    assert!(firsts.is_nullable(Symbol::Nonterm(a)));
    let (set, nullable) = firsts.first_set(Symbol::Nonterm(a));
    assert_eq!(set.to_vec(), Vec::<u32>::new());
    assert!(nullable);
    assert!(firsts.is_nullable(Symbol::Nonterm(b)));
    assert!(firsts.is_nullable(Symbol::Nonterm(s)));
    assert_eq!(firsts.firsts(b).to_vec(), vec![1]);
    assert_eq!(firsts.firsts(s).to_vec(), vec![0, 1]);
    let follows = Follows::new(&g, &firsts);
    // A stands before 'b', before B (which begins with 'c' or vanishes),
    // at the end of S and twice in B
    assert_eq!(follows.follow_set(a).to_vec(), vec![0, 1, 2]);
    assert_eq!(follows.follow_set(b).to_vec(), vec![2]);
    assert_eq!(follows.follow_set(s).to_vec(), vec![2]);
}

#[test]
fn first_of_a_terminal_is_itself() {
    let g = Grammar::new(&expr_ast()).unwrap();
    let firsts = Firsts::new(&g);
    let (set, nullable) = firsts.first_set(Symbol::Term(1));
    assert_eq!(set.to_vec(), vec![1]);
    assert!(!nullable);
    assert!(!firsts.is_nullable(Symbol::Term(1)));
    // what is no symbol of the grammar has an empty FIRST set
    let (none, flag) = firsts.first_set(Symbol::Term(99));
    assert_eq!(none.to_vec(), Vec::<u32>::new());
    assert!(!flag);
    let (none, flag) = firsts.first_set(Symbol::Nonterm(99));
    assert_eq!(none.to_vec(), Vec::<u32>::new());
    assert!(!flag);
}

#[test]
fn first_of_a_sequence_stops_at_the_first_symbol_that_stays() {
    let g = Grammar::new(&nullable_ast()).unwrap();
    let firsts = Firsts::new(&g);
    let a = g.rule_by_name("A").unwrap();
    let b = g.rule_by_name("B").unwrap();
    let form = vec![Symbol::Nonterm(a), Symbol::Nonterm(b), Symbol::Term(0), Symbol::Term(1)];
    let (set, nullable) = firsts.first_set_of_sequence(&form);
    assert_eq!(set.to_vec(), vec![0, 1]);
    assert!(!nullable);
    let (set, nullable) = firsts.first_set_of_sequence(&vec![Symbol::Nonterm(a), Symbol::Nonterm(b)]);
    assert_eq!(set.to_vec(), vec![1]);
    assert!(nullable);
    let (set, nullable) = firsts.first_set_of_sequence(&vec![]);
    assert_eq!(set.to_vec(), Vec::<u32>::new());
    assert!(nullable);
    let (set, nullable) = firsts.first_set_of_suffix(&form, 3);
    assert_eq!(set.to_vec(), vec![1]);
    assert!(!nullable);
    let (set, nullable) = firsts.first_set_of_suffix(&form, 4);
    assert_eq!(set.to_vec(), Vec::<u32>::new());
    assert!(nullable);
}

#[test]
fn computing_the_tables_again_changes_nothing() {
    for ast in [expr_ast(), nullable_ast()] {
        let g = Grammar::new(&ast).unwrap();
        let one = Firsts::new(&g);
        let two = Firsts::new(&g);
        let f1 = Follows::new(&g, &one);
        let f2 = Follows::new(&g, &two);
        for a in 0..g.nonterms_len() {
            assert_eq!(one.firsts(a).to_vec(), two.firsts(a).to_vec());
            assert_eq!(
                one.is_nullable(Symbol::Nonterm(a)),
                two.is_nullable(Symbol::Nonterm(a))
            );
            assert_eq!(f1.follow_set(a).to_vec(), f2.follow_set(a).to_vec());
        }
    }
}

#[test]
fn left_recursive_cycle_converges() {
    // A -> B 'x' | 'y' ; B -> A 'z' | A
    let ast = GrammarAst {
        tokens: names(&["x", "y", "z"]),
        precedences: vec![],
        rules: vec![
            rule_ast("A", vec![prod(vec![rule("B"), tok("x")]), prod(vec![tok("y")])]),
            rule_ast("B", vec![prod(vec![rule("A"), tok("z")]), prod(vec![rule("A")])]),
        ],
        starts: names(&["A"]),
    };
    let g = Grammar::new(&ast).unwrap();
    let firsts = Firsts::new(&g);
    assert_eq!(firsts.firsts(0).to_vec(), vec![1]);
    assert_eq!(firsts.firsts(1).to_vec(), vec![1]);
    assert_eq!(firsts.firsts(2).to_vec(), vec![1]);
    let follows = Follows::new(&g, &firsts);
    assert_eq!(follows.follow_set(0).to_vec(), vec![0, 2, 3]);
    assert_eq!(follows.follow_set(1).to_vec(), vec![0]);
}

#[test]
fn equal_level_without_associativity_is_ambiguous() {
    let p = Some(Precedence { level: 3, kind: AssocKind::Nonassoc });
    assert_eq!(resolve_shift_reduce(p, p), Resolution::Ambiguous);
}

#[test]
fn shift_reduce_policy() {
    let left = |level| Some(Precedence { level, kind: AssocKind::Left });
    let right = |level| Some(Precedence { level, kind: AssocKind::Right });
    let non = |level| Some(Precedence { level, kind: AssocKind::Nonassoc });
    assert_eq!(resolve_shift_reduce(left(2), left(1)), Resolution::Reduce);
    assert_eq!(resolve_shift_reduce(left(1), left(2)), Resolution::Shift);
    assert_eq!(resolve_shift_reduce(left(1), left(1)), Resolution::Reduce);
    assert_eq!(resolve_shift_reduce(right(1), right(1)), Resolution::Shift);
    assert_eq!(resolve_shift_reduce(non(2), non(1)), Resolution::Reduce);
    assert_eq!(resolve_shift_reduce(non(1), non(2)), Resolution::Shift);
    assert_eq!(resolve_shift_reduce(None, left(1)), Resolution::Unresolved);
    assert_eq!(resolve_shift_reduce(left(1), None), Resolution::Unresolved);
    assert_eq!(resolve_shift_reduce(None, None), Resolution::Unresolved);
}

#[test]
fn earlier_production_wins_reduce_reduce() {
    assert_eq!(resolve_reduce_reduce(3, 7), 3);
    assert_eq!(resolve_reduce_reduce(7, 3), 3);
    assert_eq!(resolve_reduce_reduce(5, 5), 5);
}

#[test]
fn production_precedence_override_and_rightmost() {
    // E -> E '+' E '*' E      : rightmost declared is '*'
    //    | '-' E  %prec '*'   : override
    //    | '-' E  %prec 'num' : override without precedence falls back to '-'
    //    | num
    let ast = GrammarAst {
        tokens: names(&["+", "*", "-", "num"]),
        precedences: vec![
            PrecedenceDecl { kind: AssocKind::Left, tokens: names(&["+", "-"]) },
            PrecedenceDecl { kind: AssocKind::Right, tokens: names(&["*"]) },
        ],
        rules: vec![rule_ast(
            "E",
            vec![
                prod(vec![rule("E"), tok("+"), rule("E"), tok("*"), rule("E"), tok("num")]),
                ProductionAst {
                    symbols: vec![tok("-"), rule("E")],
                    precedence: Some("*".to_string()),
                },
                ProductionAst {
                    symbols: vec![tok("-"), rule("E")],
                    precedence: Some("num".to_string()),
                },
                prod(vec![tok("num")]),
            ],
        )],
        starts: names(&["E"]),
    };
    let g = Grammar::new(&ast).unwrap();
    let low = Some(Precedence { level: 1, kind: AssocKind::Left });
    let high = Some(Precedence { level: 2, kind: AssocKind::Right });
    assert_eq!(g.term_precedence(0), low);
    assert_eq!(g.term_precedence(2), low);
    assert_eq!(g.term_precedence(1), high);
    assert_eq!(g.term_precedence(3), None);
    assert_eq!(g.levels_len(), 2);
    assert_eq!(production_precedence(&g, 0), high);
    assert_eq!(production_precedence(&g, 1), high);
    assert_eq!(production_precedence(&g, 2), low);
    assert_eq!(production_precedence(&g, 3), None);
    assert_eq!(g.prod(1).prec, Some(1));
}

#[test]
fn index_set_operations() {
    let mut a = IndexSet::new(5);
    assert_eq!(a.size(), 5);
    assert!(a.insert(3));
    assert!(!a.insert(3));
    assert!(a.insert(0));
    assert!(a.contains(3));
    assert!(!a.contains(4));
    assert!(!a.contains(77));
    assert_eq!(a.to_vec(), vec![0, 3]);
    let mut b = IndexSet::new(5);
    b.insert(4);
    b.insert(3);
    assert!(a.union_with(&b));
    assert!(!a.union_with(&b));
    assert_eq!(a.to_vec(), vec![0, 3, 4]);
    assert_eq!(a.complement().to_vec(), vec![1, 2]);
    assert_eq!(a.minus(&b).to_vec(), vec![0]);
    assert_eq!(a.duplicate().to_vec(), vec![0, 3, 4]);
}
