//! Grammar symbols and operator precedence, the values every analysis shares.

use vstd::prelude::*;

verus! {

/// A grammar symbol, identified by its dense zero-based index among the
/// terminals or among the nonterminals.
#[derive(Clone, Copy, Debug, PartialEq, Eq, Structural)]
pub enum Symbol {
    Term(u32),
    Nonterm(u32),
}

/// How an operator associates with operators of its own level.
#[derive(Clone, Copy, Debug, PartialEq, Eq, Structural)]
pub enum AssocKind {
    Left,
    Right,
    Nonassoc,
}

/// A precedence level with its associativity; a higher level binds tighter.
#[derive(Clone, Copy, Debug, PartialEq, Eq, Structural)]
pub struct Precedence {
    pub level: u32,
    pub kind: AssocKind,
}

/// The particular Yacc variant a grammar makes use of.
#[derive(Clone, Copy, Debug, PartialEq, Eq, Structural)]
pub enum YaccKind {
    /// The original Yacc style as documented by Johnson.
    Original,
    /// The variant used in the Eco language composition editor.
    Eco,
}

/// One alternative of a rule: the nonterminal it reduces to, its right-hand
/// side, and the terminal named by an inline precedence override, if any.
#[derive(Debug)]
pub struct Production {
    pub lhs: u32,
    pub rhs: Vec<Symbol>,
    pub prec: Option<u32>,
}

/// The mathematical content of a production.
pub struct ProductionModel {
    pub lhs: u32,
    pub rhs: Seq<Symbol>,
    pub prec: Option<u32>,
}

impl Production {
    pub open spec fn view(&self) -> ProductionModel {
        ProductionModel { lhs: self.lhs, rhs: self.rhs@, prec: self.prec }
    }
}

/// The mathematical content of a grammar: names by index, productions in
/// declaration order with the augmented start production last, the start
/// nonterminal, and each terminal's declared precedence.
pub struct GrammarModel {
    pub term_names: Seq<Seq<char>>,
    pub rule_names: Seq<Seq<char>>,
    pub prods: Seq<ProductionModel>,
    pub start: u32,
    pub precs: Seq<Option<Precedence>>,
    pub levels: nat,
}

impl GrammarModel {
    /// Number of terminals, end-of-input included.
    pub open spec fn terms(self) -> nat {
        self.term_names.len()
    }

    /// Number of nonterminals, the augmented start included.
    pub open spec fn nonterms(self) -> nat {
        self.rule_names.len()
    }

    /// The end-of-input terminal: the last terminal.
    pub open spec fn eof(self) -> u32 {
        (self.terms() - 1) as u32
    }

    /// The augmented start nonterminal: the last nonterminal.
    pub open spec fn augmented(self) -> u32 {
        (self.nonterms() - 1) as u32
    }

    /// The augmented start production: the last production.
    pub open spec fn augmented_prod(self) -> int {
        self.prods.len() - 1
    }

    /// Whether `s` is a symbol of this grammar.
    pub open spec fn has_symbol(self, s: Symbol) -> bool {
        match s {
            Symbol::Term(t) => (t as nat) < self.terms(),
            Symbol::Nonterm(n) => (n as nat) < self.nonterms(),
        }
    }

    /// Whether `s` is a symbol a declared rule may mention: neither
    /// end-of-input nor the augmented start.
    pub open spec fn has_user_symbol(self, s: Symbol) -> bool {
        match s {
            Symbol::Term(t) => (t as nat) + 1 < self.terms(),
            Symbol::Nonterm(n) => (n as nat) + 1 < self.nonterms(),
        }
    }

    /// Whether every symbol of `form` is a symbol of this grammar.
    pub open spec fn has_symbols(self, form: Seq<Symbol>) -> bool {
        forall|k: int| 0 <= k < form.len() ==> self.has_symbol(#[trigger] form[k])
    }

    /// Whether production `p` is a declared one whose parts are in range.
    pub open spec fn user_prod_ok(self, p: int) -> bool {
        let prod = self.prods[p];
        &&& (prod.lhs as nat) + 1 < self.nonterms()
        &&& forall|k: int| 0 <= k < prod.rhs.len() ==> self.has_user_symbol(#[trigger] prod.rhs[k])
        &&& match prod.prec {
            Some(t) => (t as nat) + 1 < self.terms(),
            None => true,
        }
    }

    /// Whether the declared precedences are in range and agree level by level.
    pub open spec fn precs_ok(self) -> bool {
        &&& self.precs.len() == self.terms()
        &&& self.levels <= u32::MAX
        &&& self.precs[self.eof() as int] is None
        &&& forall|t: int|
            0 <= t < self.precs.len() ==> match #[trigger] self.precs[t] {
                Some(pr) => 1 <= pr.level <= self.levels,
                None => true,
            }
        &&& forall|t: int, u: int|
            0 <= t < self.precs.len() && 0 <= u < self.precs.len() ==> match (
                #[trigger] self.precs[t],
                #[trigger] self.precs[u],
            ) {
                (Some(a), Some(b)) => a.level == b.level ==> a.kind == b.kind,
                _ => true,
            }
    }

    /// The invariant of a grammar model: indices are dense and fit in 32
    /// bits, every production mentions only existing symbols, and the last
    /// production is `augmented -> start end-of-input`.
    pub open spec fn wf(self) -> bool {
        &&& 1 <= self.terms() <= u32::MAX
        &&& 1 <= self.nonterms() <= u32::MAX
        &&& 1 <= self.prods.len() <= u32::MAX
        &&& (self.start as nat) + 1 < self.nonterms()
        &&& self.prods[self.augmented_prod()] == (ProductionModel {
            lhs: self.augmented(),
            rhs: seq![Symbol::Nonterm(self.start), Symbol::Term(self.eof())],
            prec: None,
        })
        &&& forall|p: int| 0 <= p < self.prods.len() - 1 ==> #[trigger] self.user_prod_ok(p)
        &&& self.precs_ok()
    }

    /// In a well-formed model every production stays within the symbol table.
    pub proof fn lemma_prod_in_range(self, p: int)
        requires
            self.wf(),
            0 <= p < self.prods.len(),
        ensures
            (self.prods[p].lhs as nat) < self.nonterms(),
            self.has_symbols(self.prods[p].rhs),
    {
        if p < self.prods.len() - 1 {
            assert(self.user_prod_ok(p));
            assert forall|k: int| 0 <= k < self.prods[p].rhs.len() implies self.has_symbol(
                #[trigger] self.prods[p].rhs[k],
            ) by {
                assert(self.has_user_symbol(self.prods[p].rhs[k]));
            }
        } else {
            assert(self.prods[p].rhs.len() == 2);
        }
    }
}

} // verus!
