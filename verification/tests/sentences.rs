use cfgrammar::ast::{GrammarAst, PrecedenceDecl, ProductionAst, RuleAst, SymbolRef};
use cfgrammar::costs::{form_cost, sat_add, CostTable};
use cfgrammar::firsts::Firsts;
use cfgrammar::generator::{admissible, push_reversed, ChoiceSource, SentenceGenerator};
use cfgrammar::grammar::Grammar;
use cfgrammar::symbol::{AssocKind, Symbol};

fn tok(name: &str) -> SymbolRef {
    SymbolRef::Token(name.to_string())
}

fn rule(name: &str) -> SymbolRef {
    SymbolRef::Rule(name.to_string())
}

fn prod(symbols: Vec<SymbolRef>) -> ProductionAst {
    ProductionAst { symbols, precedence: None }
}

fn names(list: &[&str]) -> Vec<String> {
    list.iter().map(|s| s.to_string()).collect()
}

fn rule_ast(name: &str, productions: Vec<ProductionAst>) -> RuleAst {
    RuleAst { name: name.to_string(), productions }
}

fn expr_ast() -> GrammarAst {
    GrammarAst {
        tokens: names(&["+", "*", "num"]),
        precedences: vec![
            PrecedenceDecl { kind: AssocKind::Left, tokens: names(&["+"]) },
            PrecedenceDecl { kind: AssocKind::Left, tokens: names(&["*"]) },
        ],
        rules: vec![rule_ast(
            "E",
            vec![
                prod(vec![rule("E"), tok("+"), rule("E")]),
                prod(vec![rule("E"), tok("*"), rule("E")]),
                prod(vec![tok("num")]),
            ],
        )],
        starts: names(&["E"]),
    }
}

// S -> S S | 'a'
fn doubling_ast() -> GrammarAst {
    GrammarAst {
        tokens: names(&["a"]),
        precedences: vec![],
        rules: vec![rule_ast(
            "S",
            vec![prod(vec![rule("S"), rule("S")]), prod(vec![tok("a")])],
        )],
        starts: names(&["S"]),
    }
}

// A -> B B ; B -> C C | B B B ; C -> 'c' ; U -> U 'c'
fn chain_ast() -> GrammarAst {
    GrammarAst {
        tokens: names(&["c"]),
        precedences: vec![],
        rules: vec![
            rule_ast("A", vec![prod(vec![rule("B"), rule("B")])]),
            rule_ast(
                "B",
                vec![
                    prod(vec![rule("B"), rule("B"), rule("B")]),
                    prod(vec![rule("C"), rule("C")]),
                ],
            ),
            rule_ast("C", vec![prod(vec![tok("c")])]),
            rule_ast("U", vec![prod(vec![rule("U"), tok("c")])]),
        ],
        starts: names(&["A"]),
    }
}

#[test]
fn left_recursive_grammar_terminates_within_budget() {
    let g = Grammar::new(&doubling_ast()).unwrap();
    let gen = SentenceGenerator::new(&g);
    for seed in 0..200u64 {
        let mut source = ChoiceSource::new(seed);
        let s = gen.generate(&g, 0, 3, &mut source).unwrap();
        // three expansions give at most two terminals
        assert!(s.len() == 1 || s.len() == 2);
        assert!(s.iter().all(|t| *t == 0));
    }
}

#[test]
fn budget_bounds_the_number_of_expansions() {
    let g = Grammar::new(&doubling_ast()).unwrap();
    let gen = SentenceGenerator::new(&g);
    let mut longest = 0;
    for seed in 0..300u64 {
        let mut source = ChoiceSource::new(seed);
        let s = gen.generate(&g, 0, 9, &mut source).unwrap();
        // k terminals take 2k - 1 expansions
        assert!(s.len() >= 1 && 2 * s.len() - 1 <= 9);
        assert!(s.iter().all(|t| *t == 0));
        if s.len() > longest {
            longest = s.len();
        }
    }
    assert!(longest > 1);
}

#[test]
fn exhausted_budget_forces_the_shortest_derivation() {
    let g = Grammar::new(&chain_ast()).unwrap();
    let gen = SentenceGenerator::new(&g);
    for seed in 0..20u64 {
        let mut source = ChoiceSource::new(seed);
        assert_eq!(gen.generate(&g, 0, 0, &mut source), Some(vec![0, 0, 0, 0]));
        let mut source = ChoiceSource::new(seed);
        assert_eq!(gen.generate(&g, 1, 2, &mut source), Some(vec![0, 0]));
        let mut source = ChoiceSource::new(seed);
        assert_eq!(gen.generate(&g, 2, 0, &mut source), Some(vec![0]));
    }
}

#[test]
fn unproductive_nonterminal_has_no_sentence() {
    let g = Grammar::new(&chain_ast()).unwrap();
    let gen = SentenceGenerator::new(&g);
    let mut source = ChoiceSource::new(1);
    assert_eq!(gen.generate(&g, 3, 10, &mut source), None);
    // what is no nonterminal has none either
    assert_eq!(gen.generate(&g, 77, 10, &mut source), None);
}

#[test]
fn shortest_derivations_are_counted_in_productions() {
    let g = Grammar::new(&chain_ast()).unwrap();
    let gen = SentenceGenerator::new(&g);
    assert_eq!(gen.min_cost(0), Some(7));
    assert_eq!(gen.min_cost(1), Some(3));
    assert_eq!(gen.min_cost(2), Some(1));
    assert_eq!(gen.min_cost(3), None);
    assert_eq!(gen.min_cost(4), Some(8));
    let table = CostTable::new(&g);
    assert_eq!(table.min_cost(1), Some(3));
    assert_eq!(table.best_prod(0), 0);
    assert_eq!(table.best_prod(1), 2);
    assert_eq!(table.best_prod(2), 3);
    assert_eq!(
        table.cost_of_form(&vec![Symbol::Nonterm(1), Symbol::Term(0), Symbol::Nonterm(2)]),
        Some(4)
    );
    assert_eq!(table.cost_of_form(&vec![Symbol::Nonterm(1), Symbol::Nonterm(3)]), None);
    assert_eq!(table.cost_of_form(&vec![]), Some(0));
}

#[test]
fn costs_add_up_and_stop_at_the_greatest_number() {
    assert_eq!(sat_add(3, 4), 7);
    assert_eq!(sat_add(u64::MAX, 1), u64::MAX);
    assert_eq!(sat_add(u64::MAX - 1, 1), u64::MAX);
    assert_eq!(sat_add(u64::MAX - 5, 9), u64::MAX);
    let costs = vec![Some(u64::MAX - 1), Some(2), None];
    assert_eq!(form_cost(&costs, &vec![Symbol::Nonterm(0), Symbol::Nonterm(1)]), Some(u64::MAX));
    assert_eq!(form_cost(&costs, &vec![Symbol::Nonterm(1), Symbol::Term(5)]), Some(2));
    assert_eq!(form_cost(&costs, &vec![Symbol::Nonterm(1), Symbol::Nonterm(2)]), None);
    assert_eq!(form_cost(&costs, &vec![Symbol::Nonterm(9)]), None);
}

#[test]
fn productions_that_fit_the_room() {
    let g = Grammar::new(&chain_ast()).unwrap();
    let table = CostTable::new(&g);
    // B -> B B B costs 9 below it, B -> C C costs 2
    assert_eq!(admissible(&table, &g, 1, 10), vec![1, 2]);
    assert_eq!(admissible(&table, &g, 1, 9), vec![2]);
    assert_eq!(admissible(&table, &g, 1, 3), vec![2]);
    assert_eq!(admissible(&table, &g, 1, 2), Vec::<u32>::new());
    assert_eq!(admissible(&table, &g, 3, 1000), Vec::<u32>::new());
}

#[test]
fn right_hand_sides_go_on_the_stack_back_to_front() {
    let mut stack = vec![Symbol::Term(9)];
    push_reversed(&mut stack, &vec![Symbol::Nonterm(1), Symbol::Term(2), Symbol::Nonterm(3)]);
    assert_eq!(
        stack,
        vec![Symbol::Term(9), Symbol::Nonterm(3), Symbol::Term(2), Symbol::Nonterm(1)]
    );
    push_reversed(&mut stack, &vec![]);
    assert_eq!(stack.len(), 4);
}

#[test]
fn sentences_of_the_expression_grammar_are_expressions() {
    let g = Grammar::new(&expr_ast()).unwrap();
    let gen = SentenceGenerator::new(&g);
    let firsts = Firsts::new(&g);
    let mut seen_operator = false;
    for seed in 0..200u64 {
        let mut source = ChoiceSource::new(seed);
        let budget = (seed % 12) as u32;
        let s = gen.generate(&g, g.start_rule(), budget, &mut source).unwrap();
        // num (op num)*
        assert!(s.len() % 2 == 1);
        for (i, t) in s.iter().enumerate() {
            if i % 2 == 0 {
                assert_eq!(*t, 2);
            } else {
                assert!(*t == 0 || *t == 1);
                seen_operator = true;
            }
        }
        // the leading terminal is in FIRST of the start symbol
        assert!(firsts.firsts(g.start_rule()).contains(s[0]));
        // k operators take 2k + 1 expansions
        let limit = if budget == 0 { 1 } else { budget as usize };
        assert!(s.len() <= limit);
    }
    assert!(seen_operator);
}

#[test]
fn same_seed_same_sentence() {
    let g = Grammar::new(&expr_ast()).unwrap();
    let gen = SentenceGenerator::new(&g);
    let mut one = ChoiceSource::new(7);
    let mut two = ChoiceSource::new(7);
    for _ in 0..10 {
        assert_eq!(gen.generate(&g, 0, 15, &mut one), gen.generate(&g, 0, 15, &mut two));
    }
}

#[test]
fn choices_follow_the_congruential_sequence() {
    let mut source = ChoiceSource::new(0);
    assert_eq!(source.pick(7), 2);
    assert_eq!(source.pick(7), 1);
    assert_eq!(source.pick(7), 6);
    let mut source = ChoiceSource::new(42);
    assert_eq!(source.pick(10), 4);
    let mut source = ChoiceSource::new(42);
    assert_eq!(source.pick(1), 0);
}

#[test]
fn sentence_comes_terminal_by_terminal() {
    let g = Grammar::new(&chain_ast()).unwrap();
    let gen = SentenceGenerator::new(&g);
    let mut source = ChoiceSource::new(3);
    let mut run = gen.begin(0, 0).unwrap();
    assert!(!run.is_finished());
    let mut out = vec![];
    while let Some(t) = gen.next_terminal(&g, &mut run, &mut source) {
        out.push(t);
    }
    assert_eq!(out, vec![0, 0, 0, 0]);
    assert!(run.is_finished());
    assert_eq!(gen.next_terminal(&g, &mut run, &mut source), None);
    // to begin again is to restart
    let mut again = gen.begin(0, 0).unwrap();
    assert_eq!(gen.next_terminal(&g, &mut again, &mut source), Some(0));
    assert!(!again.is_finished());
    assert!(gen.begin(3, 5).is_none());
    assert!(gen.begin(99, 5).is_none());
}

#[test]
fn empty_sentence_of_a_nullable_nonterminal() {
    // S -> A A ; A -> (empty) | 'a' A
    let ast = GrammarAst {
        tokens: names(&["a"]),
        precedences: vec![],
        rules: vec![
            rule_ast("S", vec![prod(vec![rule("A"), rule("A")])]),
            rule_ast("A", vec![prod(vec![]), prod(vec![tok("a"), rule("A")])]),
        ],
        starts: names(&["S"]),
    };
    let g = Grammar::new(&ast).unwrap();
    let gen = SentenceGenerator::new(&g);
    assert_eq!(gen.min_cost(0), Some(3));
    assert_eq!(gen.min_cost(1), Some(1));
    let mut source = ChoiceSource::new(11);
    assert_eq!(gen.generate(&g, 0, 0, &mut source), Some(vec![]));
    assert_eq!(gen.generate(&g, 0, 3, &mut source), Some(vec![]));
    let firsts = Firsts::new(&g);
    assert!(firsts.is_nullable(Symbol::Nonterm(0)));
    let mut longest = 0;
    for seed in 0..100u64 {
        let mut source = ChoiceSource::new(seed);
        let s = gen.generate(&g, 0, 8, &mut source).unwrap();
        // every 'a' takes one expansion more than the three of the empty sentence
        assert!(s.len() + 3 <= 8);
        assert!(s.iter().all(|t| *t == 0));
        if s.len() > longest {
            longest = s.len();
        }
    }
    assert!(longest > 0);
}

#[test]
fn production_is_drawn_from_those_that_fit() {
    let g = Grammar::new(&chain_ast()).unwrap();
    let gen = SentenceGenerator::new(&g);
    // both productions of B fit: the source draws index 167951807 % 2
    let mut source = ChoiceSource::new(0);
    assert_eq!(gen.choose_production(&g, 1, 10, &mut source), 2);
    // the source has moved on: the next draw is 218396424 % 2
    assert_eq!(gen.choose_production(&g, 1, 10, &mut source), 1);
    // one production fits: it is drawn, and the source moves on all the same
    assert_eq!(gen.choose_production(&g, 1, 3, &mut source), 2);
    let mut fresh = ChoiceSource::new(0);
    fresh.pick(7);
    fresh.pick(7);
    fresh.pick(7);
    assert_eq!(source.pick(7), fresh.pick(7));
    // none fits: the production of the shortest derivation, and the source stays
    let mut source = ChoiceSource::new(0);
    assert_eq!(gen.choose_production(&g, 1, 2, &mut source), 2);
    assert_eq!(gen.choose_production(&g, 0, 0, &mut source), 0);
    assert_eq!(source.pick(7), 2);
}

#[test]
fn generation_goes_step_by_step() {
    let g = Grammar::new(&chain_ast()).unwrap();
    let gen = SentenceGenerator::new(&g);
    let mut source = ChoiceSource::new(5);
    let mut run = gen.begin(1, 0).unwrap();
    // B -> C C, then C -> 'c' and the terminal, twice
    assert_eq!(gen.step(&g, &mut run, &mut source), None);
    assert_eq!(gen.step(&g, &mut run, &mut source), None);
    assert_eq!(gen.step(&g, &mut run, &mut source), Some(0));
    assert!(!run.is_finished());
    assert_eq!(gen.step(&g, &mut run, &mut source), None);
    assert_eq!(gen.step(&g, &mut run, &mut source), Some(0));
    assert!(run.is_finished());
    // nothing fitted the empty budget, so the source was never asked
    assert_eq!(source.pick(7), ChoiceSource::new(5).pick(7));
}

#[test]
fn generation_is_the_run_of_its_steps() {
    let g = Grammar::new(&expr_ast()).unwrap();
    let gen = SentenceGenerator::new(&g);
    for seed in 0..50u64 {
        let mut one = ChoiceSource::new(seed);
        let whole = gen.generate(&g, 0, 9, &mut one).unwrap();
        let mut two = ChoiceSource::new(seed);
        let mut run = gen.begin(0, 9).unwrap();
        let mut out = vec![];
        while !run.is_finished() {
            if let Some(t) = gen.step(&g, &mut run, &mut two) {
                out.push(t);
            }
        }
        assert_eq!(out, whole);
        assert_eq!(one.pick(1000), two.pick(1000));
    }
}
