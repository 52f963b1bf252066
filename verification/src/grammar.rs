//! The validated, indexed grammar: built once, never changed afterwards.

use vstd::prelude::*;
use vstd::string::StringExecFns;
use crate::ast::{knows, names_of};
use crate::resolve::find_name;
use crate::symbol::{GrammarModel, Precedence, Production, ProductionModel, Symbol};

verus! {

/// A grammar whose symbols are dense indices. Terminals are numbered from
/// zero with end-of-input last; nonterminals are numbered in declaration
/// order with the augmented start last; productions are numbered in
/// declaration order with the augmented start production last.
pub struct Grammar {
    pub(crate) term_names: Vec<String>,
    pub(crate) rule_names: Vec<String>,
    pub(crate) prods: Vec<Production>,
    pub(crate) start: u32,
    pub(crate) precs: Vec<Option<Precedence>>,
    pub(crate) levels: u32,
}

/// The mathematical content of a vector of productions.
pub open spec fn prods_of(v: Seq<Production>) -> Seq<ProductionModel> {
    Seq::new(v.len(), |i: int| v[i]@)
}

/// The model that the parts of a grammar stand for.
pub open spec fn model_of(
    term_names: Seq<String>,
    rule_names: Seq<String>,
    prods: Seq<Production>,
    start: u32,
    precs: Seq<Option<Precedence>>,
    levels: u32,
) -> GrammarModel {
    GrammarModel {
        term_names: names_of(term_names),
        rule_names: names_of(rule_names),
        prods: prods_of(prods),
        start,
        precs,
        levels: levels as nat,
    }
}

impl Grammar {
    /// The grammar as a mathematical model.
    pub closed spec fn view(&self) -> GrammarModel {
        model_of(
            self.term_names@,
            self.rule_names@,
            self.prods@,
            self.start,
            self.precs@,
            self.levels,
        )
    }

    /// Puts a grammar together from parts that form a well-formed model.
    pub(crate) fn assemble(
        term_names: Vec<String>,
        rule_names: Vec<String>,
        prods: Vec<Production>,
        start: u32,
        precs: Vec<Option<Precedence>>,
        levels: u32,
    ) -> (g: Grammar)
        requires
            model_of(term_names@, rule_names@, prods@, start, precs@, levels).wf(),
        ensures
            g@ == model_of(term_names@, rule_names@, prods@, start, precs@, levels),
    {
        Grammar { term_names, rule_names, prods, start, precs, levels }
    }

    #[verifier::type_invariant]
    pub closed spec fn inv(&self) -> bool {
        self@.wf()
    }

    /// What the invariant of the type says: the model is well-formed.
    pub proof fn lemma_well_formed(&self)
        requires
            self.inv(),
        ensures
            self@.wf(),
    {
    }

    /// Number of terminals, end-of-input included.
    pub fn terms_len(&self) -> (n: u32)
        ensures
            self@.wf(),
            n == self@.terms(),
    {
        proof {
            use_type_invariant(self);
        }
        self.term_names.len() as u32
    }

    /// Number of nonterminals, the augmented start included.
    pub fn nonterms_len(&self) -> (n: u32)
        ensures
            self@.wf(),
            n == self@.nonterms(),
    {
        proof {
            use_type_invariant(self);
        }
        self.rule_names.len() as u32
    }

    /// Number of productions, the augmented start production included.
    pub fn prods_len(&self) -> (n: u32)
        ensures
            self@.wf(),
            n == self@.prods.len(),
    {
        proof {
            use_type_invariant(self);
        }
        self.prods.len() as u32
    }

    /// The end-of-input terminal.
    pub fn eof_term(&self) -> (t: u32)
        ensures
            self@.wf(),
            t == self@.eof(),
    {
        proof {
            use_type_invariant(self);
        }
        (self.term_names.len() - 1) as u32
    }

    /// The start nonterminal the grammar declares.
    pub fn start_rule(&self) -> (n: u32)
        ensures
            self@.wf(),
            n == self@.start,
    {
        proof {
            use_type_invariant(self);
        }
        self.start
    }

    /// The augmented start nonterminal.
    pub fn augmented_rule(&self) -> (n: u32)
        ensures
            self@.wf(),
            n == self@.augmented(),
    {
        proof {
            use_type_invariant(self);
        }
        (self.rule_names.len() - 1) as u32
    }

    /// The augmented start production, `augmented -> start end-of-input`.
    pub fn augmented_prod(&self) -> (p: u32)
        ensures
            self@.wf(),
            p == self@.augmented_prod(),
    {
        proof {
            use_type_invariant(self);
        }
        (self.prods.len() - 1) as u32
    }

    /// Production `p`.
    pub fn prod(&self, p: u32) -> (r: &Production)
        requires
            p < self@.prods.len(),
        ensures
            self@.wf(),
            r@ == self@.prods[p as int],
    {
        proof {
            use_type_invariant(self);
        }
        &self.prods[p as usize]
    }

    /// The nonterminal production `p` reduces to.
    pub fn prod_lhs(&self, p: u32) -> (n: u32)
        requires
            p < self@.prods.len(),
        ensures
            self@.wf(),
            n == self@.prods[p as int].lhs,
    {
        proof {
            use_type_invariant(self);
        }
        self.prods[p as usize].lhs
    }

    /// The right-hand side of production `p`.
    pub fn prod_rhs(&self, p: u32) -> (r: &Vec<Symbol>)
        requires
            p < self@.prods.len(),
        ensures
            self@.wf(),
            r@ == self@.prods[p as int].rhs,
    {
        proof {
            use_type_invariant(self);
        }
        &self.prods[p as usize].rhs
    }

    /// The declared precedence of terminal `t`, if it has one.
    pub fn term_precedence(&self, t: u32) -> (r: Option<Precedence>)
        requires
            t < self@.terms(),
        ensures
            self@.wf(),
            r == self@.precs[t as int],
    {
        proof {
            use_type_invariant(self);
        }
        self.precs[t as usize]
    }

    /// Number of precedence levels the grammar declares.
    pub fn levels_len(&self) -> (n: u32)
        ensures
            self@.wf(),
            n == self@.levels,
    {
        proof {
            use_type_invariant(self);
        }
        self.levels
    }

    /// The name of terminal `t`.
    pub fn term_name(&self, t: u32) -> (r: &String)
        requires
            t < self@.terms(),
        ensures
            r@ == self@.term_names[t as int],
    {
        proof {
            use_type_invariant(self);
        }
        &self.term_names[t as usize]
    }

    /// The name of nonterminal `n`.
    pub fn rule_name(&self, n: u32) -> (r: &String)
        requires
            n < self@.nonterms(),
        ensures
            r@ == self@.rule_names[n as int],
    {
        proof {
            use_type_invariant(self);
        }
        &self.rule_names[n as usize]
    }

    /// The name of symbol `s`.
    pub fn symbol_name(&self, s: Symbol) -> (r: &String)
        requires
            self@.has_symbol(s),
        ensures
            r@ == match s {
                Symbol::Term(t) => self@.term_names[t as int],
                Symbol::Nonterm(n) => self@.rule_names[n as int],
            },
    {
        match s {
            Symbol::Term(t) => self.term_name(t),
            Symbol::Nonterm(n) => self.rule_name(n),
        }
    }

    /// The first terminal named `name`.
    pub fn term_by_name(&self, name: &str) -> (r: Option<u32>)
        ensures
            match r {
                Some(t) => (t as int) < self@.terms() && self@.term_names[t as int] == name@
                    && forall|j: int| 0 <= j < t ==> #[trigger] self@.term_names[j] != name@,
                None => !knows(self@.term_names, name@),
            },
    {
        proof {
            use_type_invariant(self);
        }
        let owned = String::from_str(name);
        let r = find_name(&self.term_names, &owned);
        proof {
            match r {
                Some(t) => {
                    assert forall|j: int| 0 <= j < t implies #[trigger] self@.term_names[j]
                        != name@ by {
                        assert(self.term_names@[j]@ != name@);
                    }
                },
                None => {},
            }
        }
        r
    }

    /// The first nonterminal named `name`.
    pub fn rule_by_name(&self, name: &str) -> (r: Option<u32>)
        ensures
            match r {
                Some(n) => (n as int) < self@.nonterms() && self@.rule_names[n as int] == name@
                    && forall|j: int| 0 <= j < n ==> #[trigger] self@.rule_names[j] != name@,
                None => !knows(self@.rule_names, name@),
            },
    {
        proof {
            use_type_invariant(self);
        }
        let owned = String::from_str(name);
        let r = find_name(&self.rule_names, &owned);
        proof {
            match r {
                Some(n) => {
                    assert forall|j: int| 0 <= j < n implies #[trigger] self@.rule_names[j]
                        != name@ by {
                        assert(self.rule_names@[j]@ != name@);
                    }
                },
                None => {},
            }
        }
        r
    }

    /// The productions of nonterminal `a`, in declaration order.
    pub fn rule_prods(&self, a: u32) -> (v: Vec<u32>)
        ensures
            forall|p: u32|
                v@.contains(p) <==> ((p as int) < self@.prods.len() && self@.prods[p as int].lhs
                    == a),
            forall|i: int, j: int| 0 <= i < j < v@.len() ==> v@[i] < v@[j],
    {
        proof {
            use_type_invariant(self);
        }
        let n = self.prods.len();
        let mut v: Vec<u32> = Vec::new();
        let mut p: usize = 0;
        while p < n
            invariant
                p <= n,
                n == self.prods@.len(),
                n <= u32::MAX,
                forall|q: u32|
                    v@.contains(q) <==> ((q as int) < p && self.prods@[q as int].lhs == a),
                forall|i: int, j: int| 0 <= i < j < v@.len() ==> v@[i] < v@[j],
                forall|i: int| 0 <= i < v@.len() ==> v@[i] < p,
            decreases n - p,
        {
            if self.prods[p].lhs == a {
                let ghost before = v@;
                v.push(p as u32);
                proof {
                    assert forall|q: u32|
                        v@.contains(q) <==> ((q as int) < p + 1 && self.prods@[q as int].lhs
                            == a) by {
                        if v@.contains(q) {
                            let i = choose|i: int| 0 <= i < v@.len() && v@[i] == q;
                            if i < before.len() {
                                assert(before[i] == q);
                                assert(before.contains(q));
                            }
                        }
                        if (q as int) < p + 1 && self.prods@[q as int].lhs == a {
                            if (q as int) < p {
                                assert(before.contains(q));
                                let i = choose|i: int| 0 <= i < before.len() && before[i] == q;
                                assert(v@[i] == q);
                            } else {
                                assert(v@[before.len() as int] == q);
                            }
                        }
                    }
                }
            }
            p = p + 1;
        }
        v
    }
}

} // verus!
