//! The grammar as a parser of grammar text hands it over: names, not yet
//! indices.

use vstd::prelude::*;
use crate::symbol::{AssocKind, GrammarModel, Precedence, ProductionModel, Symbol};

verus! {

/// A symbol of a production, by name.
#[derive(Debug, Clone, PartialEq, Eq)]
pub enum SymbolRef {
    Rule(String),
    Token(String),
}

/// One alternative of a rule: its symbols, and the token named by an
/// inline precedence override.
#[derive(Debug, Clone, PartialEq, Eq)]
pub struct ProductionAst {
    pub symbols: Vec<SymbolRef>,
    pub precedence: Option<String>,
}

/// A rule: a nonterminal with its alternatives in declaration order.
#[derive(Debug, Clone, PartialEq, Eq)]
pub struct RuleAst {
    pub name: String,
    pub productions: Vec<ProductionAst>,
}

/// One precedence declaration: the tokens of one level. Later
/// declarations bind tighter.
#[derive(Debug, Clone, PartialEq, Eq)]
pub struct PrecedenceDecl {
    pub kind: AssocKind,
    pub tokens: Vec<String>,
}

/// A whole grammar: every declared token once (those that a precedence
/// declaration names too), the precedence declarations, the rules, and
/// every start declaration in the text.
#[derive(Debug, Clone, PartialEq, Eq)]
pub struct GrammarAst {
    pub tokens: Vec<String>,
    pub precedences: Vec<PrecedenceDecl>,
    pub rules: Vec<RuleAst>,
    pub starts: Vec<String>,
}

/// Why a grammar cannot be built.
#[derive(Debug, Clone, PartialEq, Eq)]
pub enum GrammarError {
    /// There are more symbols, productions or precedence levels than 32-bit
    /// indices.
    TooLarge,
    /// A token is declared twice.
    DuplicateToken(String),
    /// Two rules have one name.
    DuplicateRule(String),
    /// No start nonterminal is declared.
    MissingStart,
    /// A start declaration names another nonterminal than the first one.
    ConflictingStart(String),
    /// The start declaration names no rule.
    UnknownStart(String),
    /// A token has more than one precedence.
    DuplicatePrecedence(String),
    /// A production names a rule that does not exist.
    UnknownRule(String),
    /// A production or a precedence declaration names a token that is not
    /// declared.
    UnknownToken(String),
}

/// The name of the end-of-input terminal.
pub open spec fn eof_name() -> Seq<char> {
    seq!['$']
}

/// The name of the augmented start nonterminal.
pub open spec fn augmented_name() -> Seq<char> {
    seq!['^']
}

/// The names that a vector of strings holds.
pub open spec fn names_of(v: Seq<String>) -> Seq<Seq<char>> {
    Seq::new(v.len(), |i: int| v[i]@)
}

/// The names of the rules, in declaration order.
pub open spec fn rule_names_of(rules: Seq<RuleAst>) -> Seq<Seq<char>> {
    Seq::new(rules.len(), |i: int| rules[i].name@)
}

/// `names` holds `name`.
pub open spec fn knows(names: Seq<Seq<char>>, name: Seq<char>) -> bool {
    exists|i: int| 0 <= i < names.len() && #[trigger] names[i] == name
}

/// The name at `j` stands at an earlier position too.
pub open spec fn dup_at(names: Seq<Seq<char>>, j: int) -> bool {
    exists|i: int| 0 <= i < j && #[trigger] names[i] == names[j]
}

/// Some name stands in `names` twice.
pub open spec fn has_dup(names: Seq<Seq<char>>) -> bool {
    exists|j: int| 0 <= j < names.len() && #[trigger] dup_at(names, j)
}

/// `j` is the first position whose name stood earlier.
pub open spec fn first_dup(names: Seq<Seq<char>>, j: int) -> bool {
    &&& 0 <= j < names.len()
    &&& dup_at(names, j)
    &&& forall|i: int| 0 <= i < j ==> !#[trigger] dup_at(names, i)
}

/// The number of productions of all `rules`.
pub open spec fn total_prods(rules: Seq<RuleAst>) -> nat
    decreases rules.len(),
{
    if rules.len() == 0 {
        0
    } else {
        total_prods(rules.drop_last()) + rules.last().productions@.len()
    }
}

/// The index of the first production of rule `r`.
pub open spec fn offset(rules: Seq<RuleAst>, r: int) -> nat {
    total_prods(rules.take(r))
}

impl GrammarAst {
    pub open spec fn token_names(&self) -> Seq<Seq<char>> {
        names_of(self.tokens@)
    }

    pub open spec fn rule_names(&self) -> Seq<Seq<char>> {
        rule_names_of(self.rules@)
    }

    /// There are more symbols, productions or levels than indices.
    pub open spec fn too_large(&self) -> bool {
        ||| self.tokens@.len() >= u32::MAX
        ||| self.rules@.len() >= u32::MAX
        ||| self.precedences@.len() >= u32::MAX
        ||| total_prods(self.rules@) >= u32::MAX
    }

    /// The start declaration at `j` names another rule than the first.
    pub open spec fn conflicting_start(&self, j: int) -> bool {
        0 <= j < self.starts@.len() && self.starts@[j]@ != self.starts@[0]@
    }

    /// The start declarations are missing, disagree, or name no rule.
    pub open spec fn start_fails(&self) -> bool {
        ||| self.starts@.len() == 0
        ||| exists|j: int| #[trigger] self.conflicting_start(j)
        ||| !knows(self.rule_names(), self.starts@[0]@)
    }

    /// Position `j` of precedence declaration `d` exists.
    pub open spec fn prec_slot(&self, d: int, j: int) -> bool {
        0 <= d < self.precedences@.len() && 0 <= j < self.precedences@[d].tokens@.len()
    }

    /// The token named at position `j` of declaration `d`.
    pub open spec fn prec_name(&self, d: int, j: int) -> Seq<char> {
        self.precedences@[d].tokens@[j]@
    }

    /// The token at `(d, j)` was given a precedence at an earlier position.
    pub open spec fn prec_repeated(&self, d: int, j: int) -> bool {
        exists|e: int, i: int|
            self.prec_slot(e, i) && (e < d || (e == d && i < j)) && #[trigger] self.prec_name(e, i)
                == self.prec_name(d, j)
    }

    /// The precedence declared at `(d, j)` cannot stand: its token is not
    /// declared, or has a precedence already.
    pub open spec fn bad_prec(&self, d: int, j: int) -> bool {
        self.prec_slot(d, j) && (!knows(self.token_names(), self.prec_name(d, j))
            || self.prec_repeated(d, j))
    }

    pub open spec fn precs_fail(&self) -> bool {
        exists|d: int, j: int| #[trigger] self.bad_prec(d, j)
    }

    /// `(d, j)` is the first position whose precedence cannot stand.
    pub open spec fn first_bad_prec(&self, d: int, j: int) -> bool {
        &&& self.bad_prec(d, j)
        &&& forall|e: int, i: int|
            (e < d || (e == d && i < j)) ==> !#[trigger] self.bad_prec(e, i)
    }

    /// Production `a` of rule `r` exists.
    pub open spec fn has_prod(&self, r: int, a: int) -> bool {
        0 <= r < self.rules@.len() && 0 <= a < self.rules@[r].productions@.len()
    }

    /// Slot `k` of production `a` of rule `r` names nothing that exists.
    pub open spec fn bad_ref(&self, r: int, a: int, k: int) -> bool {
        self.has_prod(r, a) && bad_slot(
            self.token_names(),
            self.rule_names(),
            self.rules@[r].productions@[a],
            k,
        )
    }

    pub open spec fn refs_fail(&self) -> bool {
        exists|r: int, a: int, k: int| #[trigger] self.bad_ref(r, a, k)
    }

    /// `(r, a, k)` is the first slot that names nothing that exists.
    pub open spec fn first_bad_ref(&self, r: int, a: int, k: int) -> bool {
        &&& self.bad_ref(r, a, k)
        &&& forall|q: int, b: int, i: int|
            (q < r || (q == r && (b < a || (b == a && i < k)))) ==> !#[trigger] self.bad_ref(
                q,
                b,
                i,
            )
    }

    /// The grammar can be built.
    pub open spec fn valid(&self) -> bool {
        &&& !self.too_large()
        &&& !has_dup(self.token_names())
        &&& !has_dup(self.rule_names())
        &&& !self.start_fails()
        &&& !self.precs_fail()
        &&& !self.refs_fail()
    }

    /// `e` is what is first wrong with the start declarations.
    pub open spec fn start_rejects(&self, e: GrammarError) -> bool {
        match e {
            GrammarError::MissingStart => self.starts@.len() == 0,
            GrammarError::ConflictingStart(n) => exists|j: int|
                #[trigger] self.conflicting_start(j) && n@ == self.starts@[j]@ && forall|i: int|
                    0 <= i < j ==> !#[trigger] self.conflicting_start(i),
            GrammarError::UnknownStart(n) => self.starts@.len() > 0 && (forall|j: int|
                !#[trigger] self.conflicting_start(j)) && !knows(
                self.rule_names(),
                self.starts@[0]@,
            ) && n@ == self.starts@[0]@,
            _ => false,
        }
    }

    /// `e` is what is wrong at the first precedence that cannot stand.
    pub open spec fn prec_rejects(&self, e: GrammarError) -> bool {
        match e {
            GrammarError::DuplicatePrecedence(n) => exists|d: int, j: int|
                #[trigger] self.first_bad_prec(d, j) && knows(
                    self.token_names(),
                    self.prec_name(d, j),
                ) && n@ == self.prec_name(d, j),
            GrammarError::UnknownToken(n) => exists|d: int, j: int|
                #[trigger] self.first_bad_prec(d, j) && !knows(
                    self.token_names(),
                    self.prec_name(d, j),
                ) && n@ == self.prec_name(d, j),
            _ => false,
        }
    }

    /// `e` is what is wrong at the first slot that names nothing.
    pub open spec fn ref_rejects(&self, e: GrammarError) -> bool {
        exists|r: int, a: int, k: int|
            #[trigger] self.first_bad_ref(r, a, k) && slot_error(
                self.rules@[r].productions@[a],
                k,
                e,
            )
    }

    /// `e` is the first thing that keeps the grammar from being built. The
    /// checks come in this order: sizes, tokens, rule names, start
    /// declarations, precedence declarations, productions; within one
    /// check the first offending position counts.
    pub open spec fn rejects(&self, e: GrammarError) -> bool {
        match e {
            GrammarError::TooLarge => self.too_large(),
            GrammarError::DuplicateToken(n) => !self.too_large() && exists|j: int|
                #[trigger] first_dup(self.token_names(), j) && n@ == self.token_names()[j],
            GrammarError::DuplicateRule(n) => !self.too_large() && !has_dup(self.token_names())
                && exists|j: int|
                #[trigger] first_dup(self.rule_names(), j) && n@ == self.rule_names()[j],
            GrammarError::MissingStart => self.names_fine() && self.start_rejects(e),
            GrammarError::ConflictingStart(_) => self.names_fine() && self.start_rejects(e),
            GrammarError::UnknownStart(_) => self.names_fine() && self.start_rejects(e),
            GrammarError::DuplicatePrecedence(_) => self.names_fine() && !self.start_fails()
                && self.prec_rejects(e),
            GrammarError::UnknownToken(_) => self.names_fine() && !self.start_fails() && (
            self.prec_rejects(e) || (!self.precs_fail() && self.ref_rejects(e))),
            GrammarError::UnknownRule(_) => self.names_fine() && !self.start_fails()
                && !self.precs_fail() && self.ref_rejects(e),
        }
    }

    /// The sizes fit and no token or rule name stands twice.
    pub open spec fn names_fine(&self) -> bool {
        !self.too_large() && !has_dup(self.token_names()) && !has_dup(self.rule_names())
    }

    /// `pr` is what the precedence declarations say of token `t`.
    pub open spec fn prec_describes(&self, t: int, pr: Option<Precedence>) -> bool {
        match pr {
            Some(p) => exists|d: int, j: int|
                self.prec_slot(d, j) && #[trigger] self.prec_name(d, j) == self.token_names()[t]
                    && p.level == d + 1 && p.kind == self.precedences@[d].kind,
            None => forall|d: int, j: int|
                self.prec_slot(d, j) ==> #[trigger] self.prec_name(d, j) != self.token_names()[t],
        }
    }

    /// `m` is the grammar that this text describes: the declared tokens in
    /// order followed by end-of-input, the rules in order followed by the
    /// augmented start, the productions rule by rule followed by the
    /// augmented start production, every name replaced by the index of
    /// what it names.
    pub open spec fn describes(&self, m: GrammarModel) -> bool {
        let toks = self.token_names();
        let ruls = self.rule_names();
        &&& m.term_names == toks.push(eof_name())
        &&& m.rule_names == ruls.push(augmented_name())
        &&& (m.start as int) < ruls.len()
        &&& ruls[m.start as int] == self.starts@[0]@
        &&& m.levels == self.precedences@.len()
        &&& m.precs.len() == toks.len() + 1
        &&& m.precs[toks.len() as int] is None
        &&& forall|t: int| 0 <= t < toks.len() ==> self.prec_describes(t, #[trigger] m.precs[t])
        &&& m.prods.len() == total_prods(self.rules@) + 1
        &&& m.prods[m.prods.len() - 1] == (ProductionModel {
            lhs: ruls.len() as u32,
            rhs: seq![Symbol::Nonterm(m.start), Symbol::Term(toks.len() as u32)],
            prec: None,
        })
        &&& forall|r: int, a: int| #[trigger]
            self.has_prod(r, a) ==> resolves(
                toks,
                ruls,
                self.rules@[r].productions@[a],
                r,
                m.prods[offset(self.rules@, r) + a],
            )
    }
}

/// Slot `k` of a production: its symbol at `k`, or behind the symbols its
/// precedence override.
pub open spec fn bad_slot(
    toks: Seq<Seq<char>>,
    ruls: Seq<Seq<char>>,
    prod: ProductionAst,
    k: int,
) -> bool {
    if 0 <= k < prod.symbols@.len() {
        match prod.symbols@[k] {
            SymbolRef::Rule(n) => !knows(ruls, n@),
            SymbolRef::Token(n) => !knows(toks, n@),
        }
    } else if k == prod.symbols@.len() {
        match prod.precedence {
            Some(n) => !knows(toks, n@),
            None => false,
        }
    } else {
        false
    }
}

/// Slot `k` of the production names the token `name`.
pub open spec fn slot_names_token(prod: ProductionAst, k: int, name: Seq<char>) -> bool {
    if 0 <= k < prod.symbols@.len() {
        prod.symbols@[k] matches SymbolRef::Token(n) && n@ == name
    } else {
        prod.precedence matches Some(n) && n@ == name
    }
}

/// Slot `k` of the production names the rule `name`.
pub open spec fn slot_names_rule(prod: ProductionAst, k: int, name: Seq<char>) -> bool {
    0 <= k < prod.symbols@.len() && (prod.symbols@[k] matches SymbolRef::Rule(n) && n@ == name)
}

/// `e` says what slot `k` of the production names in vain.
pub open spec fn slot_error(prod: ProductionAst, k: int, e: GrammarError) -> bool {
    match e {
        GrammarError::UnknownToken(n) => slot_names_token(prod, k, n@),
        GrammarError::UnknownRule(n) => slot_names_rule(prod, k, n@),
        _ => false,
    }
}

/// `k` is the first slot of the production that names nothing that exists.
pub open spec fn first_bad_slot(
    toks: Seq<Seq<char>>,
    ruls: Seq<Seq<char>>,
    prod: ProductionAst,
    k: int,
) -> bool {
    &&& bad_slot(toks, ruls, prod, k)
    &&& forall|i: int| i < k ==> !#[trigger] bad_slot(toks, ruls, prod, i)
}

/// `s` is the index form of the named symbol `by_name`.
pub open spec fn symbol_resolves(
    toks: Seq<Seq<char>>,
    ruls: Seq<Seq<char>>,
    by_name: SymbolRef,
    s: Symbol,
) -> bool {
    match by_name {
        SymbolRef::Rule(n) => s matches Symbol::Nonterm(b) && (b as int) < ruls.len()
            && ruls[b as int] == n@,
        SymbolRef::Token(n) => s matches Symbol::Term(t) && (t as int) < toks.len()
            && toks[t as int] == n@,
    }
}

/// `pm` is the index form of production `prod` of nonterminal `lhs`.
pub open spec fn resolves(
    toks: Seq<Seq<char>>,
    ruls: Seq<Seq<char>>,
    prod: ProductionAst,
    lhs: int,
    pm: ProductionModel,
) -> bool {
    &&& pm.lhs == lhs
    &&& pm.rhs.len() == prod.symbols@.len()
    &&& forall|k: int|
        0 <= k < pm.rhs.len() ==> symbol_resolves(toks, ruls, prod.symbols@[k], #[trigger] pm.rhs[k])
    &&& match prod.precedence {
        Some(n) => pm.prec matches Some(t) && (t as int) < toks.len() && toks[t as int] == n@,
        None => pm.prec is None,
    }
}

} // verus!
