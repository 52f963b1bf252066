//! Operator precedence: what each production inherits, and how a conflict
//! between shifting a terminal and reducing a production is settled.

use vstd::prelude::*;
use crate::grammar::Grammar;
use crate::symbol::{AssocKind, GrammarModel, Precedence, Symbol};

verus! {

/// The declared precedence of symbol `s`, where it is a terminal that has
/// one.
pub open spec fn declared(m: GrammarModel, s: Symbol) -> Option<Precedence> {
    match s {
        Symbol::Term(t) => if (t as int) < m.precs.len() {
            m.precs[t as int]
        } else {
            None
        },
        Symbol::Nonterm(_) => None,
    }
}

/// The precedence of the rightmost terminal of `rhs` that has one declared.
pub open spec fn rightmost_declared(m: GrammarModel, rhs: Seq<Symbol>) -> Option<Precedence>
    decreases rhs.len(),
{
    if rhs.len() == 0 {
        None
    } else if declared(m, rhs.last()) is Some {
        declared(m, rhs.last())
    } else {
        rightmost_declared(m, rhs.drop_last())
    }
}

/// The precedence of production `p`: that of the terminal its inline
/// override names, where that terminal has one; else that of the rightmost
/// terminal of its right-hand side that has one; else none.
pub open spec fn prod_precedence(m: GrammarModel, p: int) -> Option<Precedence> {
    let over = match m.prods[p].prec {
        Some(t) => declared(m, Symbol::Term(t)),
        None => None,
    };
    if over is Some {
        over
    } else {
        rightmost_declared(m, m.prods[p].rhs)
    }
}

/// The precedence of every production of `m`, in declaration order.
pub open spec fn precedences_of(m: GrammarModel) -> Seq<Option<Precedence>> {
    Seq::new(m.prods.len(), |p: int| prod_precedence(m, p))
}

/// How a shift/reduce conflict is settled.
#[derive(Clone, Copy, Debug, PartialEq, Eq, Structural)]
pub enum Resolution {
    /// Shift the terminal.
    Shift,
    /// Reduce the production.
    Reduce,
    /// Neither: the production and the terminal are of one level that does
    /// not associate. The grammar is ambiguous here, and that is an error.
    Ambiguous,
    /// Precedence says nothing: the production or the terminal has none.
    Unresolved,
}

/// The precedence of production `p` of `g`.
pub fn production_precedence(g: &Grammar, p: u32) -> (r: Option<Precedence>)
    requires
        p < g@.prods.len(),
    ensures
        r == prod_precedence(g@, p as int),
{
    let prod = g.prod(p);
    let terms = g.terms_len();
    let ghost m = g@;
    match prod.prec {
        Some(t) => {
            if t < terms {
                let over = g.term_precedence(t);
                if over.is_some() {
                    return over;
                }
            }
        },
        None => {},
    }
    let rhs = &prod.rhs;
    let mut k: usize = rhs.len();
    proof {
        assert(rhs@.take(rhs@.len() as int) =~= rhs@);
        assert(prod_precedence(m, p as int) == rightmost_declared(m, rhs@));
    }
    while k > 0
        invariant
            k <= rhs@.len(),
            m == g@,
            m.wf(),
            p < m.prods.len(),
            terms == m.terms(),
            rhs@ == m.prods[p as int].rhs,
            prod_precedence(m, p as int) == rightmost_declared(m, rhs@),
            rightmost_declared(m, rhs@) == rightmost_declared(m, rhs@.take(k as int)),
        decreases k,
    {
        k = k - 1;
        proof {
            assert(rhs@.take(k + 1).drop_last() =~= rhs@.take(k as int));
            assert(rhs@.take(k + 1).last() == rhs@[k as int]);
        }
        match rhs[k] {
            Symbol::Term(t) => {
                if t < terms {
                    let found = g.term_precedence(t);
                    if found.is_some() {
                        return found;
                    }
                }
            },
            Symbol::Nonterm(_) => {},
        }
    }
    proof {
        assert(rhs@.take(0) =~= Seq::<Symbol>::empty());
    }
    None
}

/// Settles a conflict between reducing a production of precedence `prod`
/// and shifting a terminal of precedence `term`: reduce where the
/// production binds tighter or both are of one left-associative level,
/// shift where the terminal binds tighter or both are of one
/// right-associative level; a level that does not associate is ambiguous,
/// and without both precedences nothing is settled.
pub fn resolve_shift_reduce(prod: Option<Precedence>, term: Option<Precedence>) -> (r: Resolution)
    ensures
        r is Unresolved <==> (prod is None || term is None),
        r is Reduce <==> (prod is Some && term is Some && (prod->0.level > term->0.level || (
        prod->0.level == term->0.level && prod->0.kind is Left))),
        r is Shift <==> (prod is Some && term is Some && (prod->0.level < term->0.level || (
        prod->0.level == term->0.level && prod->0.kind is Right))),
        r is Ambiguous <==> (prod is Some && term is Some && prod->0.level == term->0.level
            && prod->0.kind is Nonassoc),
{
    match (prod, term) {
        (Some(p), Some(t)) => {
            if p.level > t.level {
                Resolution::Reduce
            } else if p.level < t.level {
                Resolution::Shift
            } else {
                match p.kind {
                    AssocKind::Left => Resolution::Reduce,
                    AssocKind::Right => Resolution::Shift,
                    AssocKind::Nonassoc => Resolution::Ambiguous,
                }
            }
        },
        _ => Resolution::Unresolved,
    }
}

/// Settles a conflict between reducing production `p` and reducing
/// production `q`: the one declared earlier wins.
pub fn resolve_reduce_reduce(p: u32, q: u32) -> (r: u32)
    ensures
        r == if p <= q { p } else { q },
{
    if p <= q {
        p
    } else {
        q
    }
}

/// The precedence of every terminal and of every production of a grammar.
pub struct PrecedenceTable {
    terms: Vec<Option<Precedence>>,
    prods: Vec<Option<Precedence>>,
    model: Ghost<GrammarModel>,
}

impl PrecedenceTable {
    /// The grammar the table was computed for.
    pub closed spec fn grammar(&self) -> GrammarModel {
        self.model@
    }

    /// The precedence of each production.
    pub closed spec fn view(&self) -> Seq<Option<Precedence>> {
        self.prods@
    }

    #[verifier::type_invariant]
    closed spec fn inv(&self) -> bool {
        &&& self.model@.wf()
        &&& self.terms@ == self.model@.precs
        &&& self.prods@ == precedences_of(self.model@)
    }

    /// Computes the precedence of every production of `g`.
    pub fn new(g: &Grammar) -> (t: PrecedenceTable)
        ensures
            t.grammar() == g@,
            t@ == precedences_of(g@),
    {
        let n = g.prods_len();
        let nt = g.terms_len();
        let mut terms: Vec<Option<Precedence>> = Vec::new();
        let mut t: u32 = 0;
        while t < nt
            invariant
                t <= nt,
                nt == g@.terms(),
                g@.wf(),
                terms@.len() == t,
                forall|u: int| 0 <= u < t ==> #[trigger] terms@[u] == g@.precs[u],
            decreases nt - t,
        {
            terms.push(g.term_precedence(t));
            t = t + 1;
        }
        let mut prods: Vec<Option<Precedence>> = Vec::new();
        let mut p: u32 = 0;
        while p < n
            invariant
                p <= n,
                n == g@.prods.len(),
                prods@.len() == p,
                forall|q: int| 0 <= q < p ==> #[trigger] prods@[q] == prod_precedence(g@, q),
            decreases n - p,
        {
            prods.push(production_precedence(g, p));
            p = p + 1;
        }
        proof {
            assert(terms@ =~= g@.precs);
            assert(prods@ =~= precedences_of(g@));
        }
        PrecedenceTable { terms, prods, model: Ghost(g@) }
    }

    /// The declared precedence of terminal `t`.
    pub fn of_terminal(&self, t: u32) -> (r: Option<Precedence>)
        requires
            t < self.grammar().terms(),
        ensures
            r == self.grammar().precs[t as int],
    {
        proof {
            use_type_invariant(self);
        }
        self.terms[t as usize]
    }

    /// The precedence of production `p`.
    pub fn of_production(&self, p: u32) -> (r: Option<Precedence>)
        requires
            p < self.grammar().prods.len(),
        ensures
            r == prod_precedence(self.grammar(), p as int),
            self@ == precedences_of(self.grammar()),
    {
        proof {
            use_type_invariant(self);
        }
        self.prods[p as usize]
    }

    /// Settles the conflict between reducing production `p` and shifting
    /// terminal `t`.
    pub fn resolve(&self, p: u32, t: u32) -> (r: Resolution)
        requires
            p < self.grammar().prods.len(),
            t < self.grammar().terms(),
        ensures
            r == settle(prod_precedence(self.grammar(), p as int), self.grammar().precs[t as int]),
    {
        let a = self.of_production(p);
        let b = self.of_terminal(t);
        resolve_shift_reduce(a, b)
    }
}

/// How precedence settles reducing at `prod` against shifting at `term`.
pub open spec fn settle(prod: Option<Precedence>, term: Option<Precedence>) -> Resolution {
    match (prod, term) {
        (Some(p), Some(t)) => if p.level > t.level {
            Resolution::Reduce
        } else if p.level < t.level {
            Resolution::Shift
        } else {
            match p.kind {
                AssocKind::Left => Resolution::Reduce,
                AssocKind::Right => Resolution::Shift,
                AssocKind::Nonassoc => Resolution::Ambiguous,
            }
        },
        _ => Resolution::Unresolved,
    }
}

/// Two precedences of one level that does not associate are never settled
/// as a shift or a reduce: they are ambiguous.
pub proof fn lemma_equal_nonassoc_is_ambiguous(prod: Precedence, term: Precedence)
    requires
        prod.level == term.level,
        prod.kind is Nonassoc,
        term.kind is Nonassoc,
    ensures
        settle(Some(prod), Some(term)) is Ambiguous,
{
}

} // verus!
