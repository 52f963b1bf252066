//! What the productions of a grammar mention: the nonterminals that own a
//! production, the nonterminals and the terminals that stand in a
//! right-hand side, and the precedence levels that are in use.

use vstd::prelude::*;
use crate::grammar::Grammar;
use crate::index_set::IndexSet;
use crate::precedence::declared;
use crate::symbol::{GrammarModel, Precedence, Symbol};

verus! {

/// What to collect from the productions.
#[derive(Clone, Copy, Debug, PartialEq, Eq, Structural)]
pub enum Marking {
    /// The nonterminals that own a production.
    Owners,
    /// The nonterminals that stand in a right-hand side.
    Nonterminals,
    /// The terminals that stand in a right-hand side.
    Terminals,
    /// The precedence levels, counted from zero, of the terminals that
    /// stand in a right-hand side or are named by a precedence override.
    Levels,
}

/// The level of a precedence, counted from zero.
pub open spec fn level_index(pr: Option<Precedence>) -> Option<u32> {
    match pr {
        Some(p) => if p.level >= 1 {
            Some((p.level - 1) as u32)
        } else {
            None
        },
        None => None,
    }
}

/// What slot `k` of production `p` marks: a slot is a position of the
/// right-hand side or, behind them, the production as a whole.
pub open spec fn marked(m: GrammarModel, mode: Marking, p: int, k: int) -> Option<u32> {
    let prod = m.prods[p];
    if 0 <= k < prod.rhs.len() {
        match mode {
            Marking::Owners => None,
            Marking::Nonterminals => match prod.rhs[k] {
                Symbol::Nonterm(b) => Some(b),
                Symbol::Term(_) => None,
            },
            Marking::Terminals => match prod.rhs[k] {
                Symbol::Term(t) => Some(t),
                Symbol::Nonterm(_) => None,
            },
            Marking::Levels => level_index(declared(m, prod.rhs[k])),
        }
    } else if k == prod.rhs.len() {
        match mode {
            Marking::Owners => Some(prod.lhs),
            Marking::Levels => match prod.prec {
                Some(t) => level_index(declared(m, Symbol::Term(t))),
                None => None,
            },
            _ => None,
        }
    } else {
        None
    }
}

/// Some slot of some production marks `x`.
pub open spec fn marks(m: GrammarModel, mode: Marking, x: u32) -> bool {
    exists|p: int, k: int| 0 <= p < m.prods.len() && #[trigger] marked(m, mode, p, k) == Some(x)
}

/// Some slot before slot `k` of production `p` marks `x`.
pub open spec fn marks_before(m: GrammarModel, mode: Marking, x: u32, p: int, k: int) -> bool {
    exists|q: int, i: int|
        0 <= q < m.prods.len() && (q < p || (q == p && i < k)) && #[trigger] marked(m, mode, q, i)
            == Some(x)
}

/// How many things there are to mark.
pub open spec fn marking_range(m: GrammarModel, mode: Marking) -> nat {
    match mode {
        Marking::Owners => m.nonterms(),
        Marking::Nonterminals => m.nonterms(),
        Marking::Terminals => m.terms(),
        Marking::Levels => m.levels,
    }
}

/// What slot `k` of production `p` of `g` marks.
pub fn mark_at(g: &Grammar, mode: Marking, p: u32, k: usize) -> (r: Option<u32>)
    requires
        p < g@.prods.len(),
        k <= g@.prods[p as int].rhs.len(),
    ensures
        r == marked(g@, mode, p as int, k as int),
        r matches Some(x) ==> (x as nat) < marking_range(g@, mode),
{
    let prod = g.prod(p);
    let terms = g.terms_len();
    proof {
        g@.lemma_prod_in_range(p as int);
    }
    if k < prod.rhs.len() {
        proof {
            assert(g@.has_symbol(prod.rhs@[k as int]));
        }
        match mode {
            Marking::Owners => None,
            Marking::Nonterminals => match prod.rhs[k] {
                Symbol::Nonterm(b) => Some(b),
                Symbol::Term(_) => None,
            },
            Marking::Terminals => match prod.rhs[k] {
                Symbol::Term(t) => Some(t),
                Symbol::Nonterm(_) => None,
            },
            Marking::Levels => match prod.rhs[k] {
                Symbol::Term(t) => match g.term_precedence(t) {
                    Some(pr) => Some(pr.level - 1),
                    None => None,
                },
                Symbol::Nonterm(_) => None,
            },
        }
    } else {
        match mode {
            Marking::Owners => Some(prod.lhs),
            Marking::Levels => match prod.prec {
                Some(t) => {
                    if t < terms {
                        match g.term_precedence(t) {
                            Some(pr) => Some(pr.level - 1),
                            None => None,
                        }
                    } else {
                        None
                    }
                },
                None => None,
            },
            _ => None,
        }
    }
}

/// Adds to `set` what slot `k` of production `p` of `g` marks.
fn mark_slot(g: &Grammar, mode: Marking, p: u32, k: usize, set: &mut IndexSet)
    requires
        p < g@.prods.len(),
        k <= g@.prods[p as int].rhs.len(),
        old(set).capacity() == marking_range(g@, mode),
        forall|x: u32| old(set)@.contains(x) <==> marks_before(g@, mode, x, p as int, k as int),
    ensures
        final(set).capacity() == marking_range(g@, mode),
        forall|x: u32| final(set)@.contains(x) <==> marks_before(g@, mode, x, p as int, k + 1),
{
    let ghost m = g@;
    let ghost before = set@;
    let found = mark_at(g, mode, p, k);
    match found {
        Some(x) => {
            set.insert(x);
        },
        None => {},
    }
    proof {
        assert forall|x: u32| set@.contains(x) <==> marks_before(m, mode, x, p as int, k + 1) by {
            if marks_before(m, mode, x, p as int, k + 1) {
                let (q, i) = choose|q: int, i: int|
                    0 <= q < m.prods.len() && (q < p || (q == p && i < k + 1))
                        && #[trigger] marked(m, mode, q, i) == Some(x);
                if q < p || (q == p && i < k) {
                    assert(marks_before(m, mode, x, p as int, k as int));
                }
            }
            if marks_before(m, mode, x, p as int, k as int) {
                let (q, i) = choose|q: int, i: int|
                    0 <= q < m.prods.len() && (q < p || (q == p && i < k)) && #[trigger] marked(
                        m,
                        mode,
                        q,
                        i,
                    ) == Some(x);
                assert(q < p || (q == p && i < k + 1));
            }
            if found == Some(x) {
                assert(marked(m, mode, p as int, k as int) == Some(x));
            }
            assert(before.contains(x) <==> marks_before(m, mode, x, p as int, k as int));
        }
    }
}

/// Everything that some slot of some production of `g` marks.
pub fn mark_set(g: &Grammar, mode: Marking) -> (set: IndexSet)
    ensures
        set.capacity() == marking_range(g@, mode),
        forall|x: u32| set@.contains(x) <==> marks(g@, mode, x),
{
    let ghost m = g@;
    let n = g.prods_len();
    let range: u32 = match mode {
        Marking::Owners => g.nonterms_len(),
        Marking::Nonterminals => g.nonterms_len(),
        Marking::Terminals => g.terms_len(),
        Marking::Levels => g.levels_len(),
    };
    let mut set = IndexSet::new(range);
    let mut p: u32 = 0;
    while p < n
        invariant
            m == g@,
            p <= n,
            n == m.prods.len(),
            range == marking_range(m, mode),
            set.capacity() == range,
            forall|x: u32| set@.contains(x) <==> marks_before(m, mode, x, p as int, 0),
        decreases n - p,
    {
        let len = g.prod_rhs(p).len();
        let mut k: usize = 0;
        while k < len
            invariant
                m == g@,
                p < n,
                n == m.prods.len(),
                len == m.prods[p as int].rhs.len(),
                k <= len,
                range == marking_range(m, mode),
                set.capacity() == range,
                forall|x: u32| set@.contains(x) <==> marks_before(m, mode, x, p as int, k as int),
            decreases len - k,
        {
            mark_slot(g, mode, p, k, &mut set);
            k = k + 1;
        }
        mark_slot(g, mode, p, len, &mut set);
        proof {
            assert forall|x: u32| set@.contains(x) <==> marks_before(m, mode, x, p + 1, 0) by {
                if marks_before(m, mode, x, p + 1, 0) {
                    let (q, i) = choose|q: int, i: int|
                        0 <= q < m.prods.len() && (q < p + 1 || (q == p + 1 && i < 0))
                            && #[trigger] marked(m, mode, q, i) == Some(x);
                    if q == p {
                        assert(i <= len);
                    }
                    assert(q < p || (q == p && i < len + 1));
                }
                if marks_before(m, mode, x, p as int, len + 1) {
                    let (q, i) = choose|q: int, i: int|
                        0 <= q < m.prods.len() && (q < p || (q == p && i < len + 1))
                            && #[trigger] marked(m, mode, q, i) == Some(x);
                    assert(q < p + 1);
                }
            }
        }
        p = p + 1;
    }
    proof {
        assert forall|x: u32| set@.contains(x) <==> marks(m, mode, x) by {
            if marks(m, mode, x) {
                let (q, i) = choose|q: int, i: int|
                    0 <= q < m.prods.len() && #[trigger] marked(m, mode, q, i) == Some(x);
                assert(q < n);
            }
            if marks_before(m, mode, x, n as int, 0) {
                let (q, i) = choose|q: int, i: int|
                    0 <= q < m.prods.len() && (q < n || (q == n && i < 0)) && #[trigger] marked(
                        m,
                        mode,
                        q,
                        i,
                    ) == Some(x);
                assert(0 <= q < m.prods.len() && marked(m, mode, q, i) == Some(x));
            }
        }
    }
    set
}

impl Grammar {
    /// The declared terminals that stand in some production, each with
    /// its name and its index, by increasing index: what a lexer has to
    /// produce for this grammar.
    pub fn tokens_map(&self) -> (v: Vec<(String, u32)>)
        ensures
            forall|i: int|
                0 <= i < v@.len() ==> {
                    let t = (#[trigger] v@[i]).1;
                    &&& t < self@.eof()
                    &&& marks(self@, Marking::Terminals, t)
                    &&& v@[i].0@ == self@.term_names[t as int]
                },
            forall|t: u32|
                t < self@.eof() && marks(self@, Marking::Terminals, t) ==> exists|i: int|
                    0 <= i < v@.len() && (#[trigger] v@[i]).1 == t,
            forall|i: int, j: int| 0 <= i < j < v@.len() ==> v@[i].1 < v@[j].1,
    {
        let used = mark_set(self, Marking::Terminals);
        let eof = self.eof_term();
        let mut v: Vec<(String, u32)> = Vec::new();
        let mut t: u32 = 0;
        while t < eof
            invariant
                t <= eof,
                eof == self@.eof(),
                self@.wf(),
                forall|x: u32| used@.contains(x) <==> marks(self@, Marking::Terminals, x),
                forall|i: int|
                    0 <= i < v@.len() ==> {
                        let u = (#[trigger] v@[i]).1;
                        &&& u < t
                        &&& marks(self@, Marking::Terminals, u)
                        &&& v@[i].0@ == self@.term_names[u as int]
                    },
                forall|u: u32|
                    u < t && marks(self@, Marking::Terminals, u) ==> exists|i: int|
                        0 <= i < v@.len() && (#[trigger] v@[i]).1 == u,
                forall|i: int, j: int| 0 <= i < j < v@.len() ==> v@[i].1 < v@[j].1,
            decreases eof - t,
        {
            if used.contains(t) {
                let ghost before = v@;
                let name = self.term_name(t).clone();
                v.push((name, t));
                proof {
                    assert forall|u: u32|
                        u < t + 1 && marks(self@, Marking::Terminals, u) implies exists|i: int|
                        0 <= i < v@.len() && (#[trigger] v@[i]).1 == u by {
                        if u < t {
                            let i = choose|i: int|
                                0 <= i < before.len() && (#[trigger] before[i]).1 == u;
                            assert(v@[i].1 == u);
                        } else {
                            assert(v@[before.len() as int].1 == u);
                        }
                    }
                }
            }
            t = t + 1;
        }
        v
    }
}

} // verus!
