//! FOLLOW sets, computed to a fixed point once FIRST is known.

use vstd::prelude::*;
use crate::firsts::{all_nullable, lemma_slack_update, seq_first, slack, Firsts};
use crate::grammar::Grammar;
use crate::index_set::IndexSet;
use crate::symbol::{GrammarModel, Symbol};

verus! {

/// What stands behind position `i` in the right-hand side of production `p`.
pub open spec fn suffix(m: GrammarModel, p: int, i: int) -> Seq<Symbol> {
    m.prods[p].rhs.subrange(i + 1, m.prods[p].rhs.len() as int)
}

/// Terminal `t` is found to follow nonterminal `a` by at most `n` uses of
/// the rules: end-of-input follows the start nonterminal; what begins the
/// rest of a production behind an occurrence of `a` follows `a`; and where
/// that rest is nullable, what follows the production's nonterminal
/// follows `a`.
pub open spec fn follow_within(m: GrammarModel, a: u32, t: u32, n: nat) -> bool
    decreases n,
{
    if n == 0 {
        false
    } else {
        (a == m.start && t == m.eof()) || exists|p: int, i: int|
            0 <= p < m.prods.len() && 0 <= i < m.prods[p].rhs.len() && #[trigger] m.prods[p].rhs[i]
                == Symbol::Nonterm(a) && (seq_first(m, suffix(m, p, i), t) || (all_nullable(
                m,
                suffix(m, p, i),
            ) && follow_within(m, m.prods[p].lhs, t, (n - 1) as nat)))
    }
}

/// `t` is in FOLLOW(`a`).
pub open spec fn follow(m: GrammarModel, a: u32, t: u32) -> bool {
    exists|n: nat| follow_within(m, a, t, n)
}

/// The FOLLOW table as mathematics: one set of terminals per nonterminal.
pub struct FollowsModel {
    pub follows: Seq<Set<u32>>,
}

impl FollowsModel {
    /// The table holds exactly FOLLOW of grammar `m`.
    pub open spec fn represents(self, m: GrammarModel) -> bool {
        &&& self.follows.len() == m.nonterms()
        &&& forall|a: int, t: u32|
            0 <= a < self.follows.len() ==> (#[trigger] self.follows[a].contains(t) <==> follow(
                m,
                a as u32,
                t,
            ))
    }

    /// Everything in the table is in FOLLOW.
    pub open spec fn sound(self, m: GrammarModel) -> bool {
        &&& self.follows.len() == m.nonterms()
        &&& forall|a: int, t: u32|
            0 <= a < self.follows.len() && #[trigger] self.follows[a].contains(t) ==> follow(
                m,
                a as u32,
                t,
            )
    }

    /// End-of-input follows the start nonterminal.
    pub open spec fn seeded(self, m: GrammarModel) -> bool {
        self.follows[m.start as int].contains(m.eof())
    }

    /// The occurrence at position `i` of production `p` can add nothing.
    pub open spec fn closed_at(self, m: GrammarModel, p: int, i: int) -> bool {
        match m.prods[p].rhs[i] {
            Symbol::Term(_) => true,
            Symbol::Nonterm(b) => forall|t: u32|
                (seq_first(m, suffix(m, p, i), t) || (all_nullable(m, suffix(m, p, i))
                    && self.follows[m.prods[p].lhs as int].contains(t)))
                    ==> #[trigger] self.follows[b as int].contains(t),
        }
    }

    /// No occurrence in any production can add anything.
    pub open spec fn closed(self, m: GrammarModel) -> bool {
        forall|p: int, i: int|
            0 <= p < m.prods.len() && 0 <= i < m.prods[p].rhs.len() ==> #[trigger] self.closed_at(
                m,
                p,
                i,
            )
    }
}

/// The occurrence by which `t` follows `a` within `n`, where it is not the
/// end-of-input behind the start nonterminal.
pub proof fn lemma_follow_witness(m: GrammarModel, a: u32, t: u32, n: nat) -> (w: (int, int))
    requires
        follow_within(m, a, t, n),
        !(a == m.start && t == m.eof()),
    ensures
        n > 0,
        0 <= w.0 < m.prods.len(),
        0 <= w.1 < m.prods[w.0].rhs.len(),
        m.prods[w.0].rhs[w.1] == Symbol::Nonterm(a),
        seq_first(m, suffix(m, w.0, w.1), t) || (all_nullable(m, suffix(m, w.0, w.1))
            && follow_within(m, m.prods[w.0].lhs, t, (n - 1) as nat)),
{
    choose|p: int, i: int|
        0 <= p < m.prods.len() && 0 <= i < m.prods[p].rhs.len() && #[trigger] m.prods[p].rhs[i]
            == Symbol::Nonterm(a) && (seq_first(m, suffix(m, p, i), t) || (all_nullable(
            m,
            suffix(m, p, i),
        ) && follow_within(m, m.prods[p].lhs, t, (n - 1) as nat)))
}

/// What begins the rest of a production behind an occurrence of `b`
/// follows `b`.
pub proof fn lemma_follow_from_first(m: GrammarModel, p: int, i: int, b: u32, t: u32)
    requires
        0 <= p < m.prods.len(),
        0 <= i < m.prods[p].rhs.len(),
        m.prods[p].rhs[i] == Symbol::Nonterm(b),
        seq_first(m, suffix(m, p, i), t),
    ensures
        follow(m, b, t),
{
    assert(follow_within(m, b, t, 1));
}

/// Behind a nullable rest, what follows the production's nonterminal
/// follows `b`.
pub proof fn lemma_follow_from_parent(m: GrammarModel, p: int, i: int, b: u32, t: u32)
    requires
        0 <= p < m.prods.len(),
        0 <= i < m.prods[p].rhs.len(),
        m.prods[p].rhs[i] == Symbol::Nonterm(b),
        all_nullable(m, suffix(m, p, i)),
        follow(m, m.prods[p].lhs, t),
    ensures
        follow(m, b, t),
{
    let lhs = m.prods[p].lhs;
    let n = choose|n: nat| follow_within(m, lhs, t, n);
    assert(follow_within(m, b, t, n + 1));
}

/// A closed table that holds end-of-input for the start nonterminal holds
/// every member of FOLLOW.
pub proof fn lemma_follow_complete(m: GrammarModel, tb: FollowsModel, a: u32, t: u32, n: nat)
    requires
        m.wf(),
        tb.follows.len() == m.nonterms(),
        tb.closed(m),
        tb.seeded(m),
        follow_within(m, a, t, n),
    ensures
        (a as nat) < m.nonterms(),
        tb.follows[a as int].contains(t),
    decreases n,
{
    if a == m.start && t == m.eof() {
    } else {
        let (p, i) = lemma_follow_witness(m, a, t, n);
        m.lemma_prod_in_range(p);
        assert(m.has_symbol(m.prods[p].rhs[i]));
        assert(tb.closed_at(m, p, i));
        if !seq_first(m, suffix(m, p, i), t) {
            lemma_follow_complete(m, tb, m.prods[p].lhs, t, (n - 1) as nat);
        }
    }
}

/// A sound, seeded and closed table is exactly FOLLOW.
pub proof fn lemma_follow_fixed_point_is_exact(m: GrammarModel, tb: FollowsModel)
    requires
        m.wf(),
        tb.sound(m),
        tb.seeded(m),
        tb.closed(m),
    ensures
        tb.represents(m),
{
    assert forall|a: int, t: u32| 0 <= a < tb.follows.len() && follow(m, a as u32, t) implies #[trigger] tb.follows[a].contains(
        t,
    ) by {
        let b = a as u32;
        let n = choose|n: nat| follow_within(m, b, t, n);
        lemma_follow_complete(m, tb, b, t, n);
    }
}

/// There is one FOLLOW table per grammar: computing it again changes nothing.
pub proof fn lemma_follows_unique(m: GrammarModel, x: FollowsModel, y: FollowsModel)
    requires
        x.represents(m),
        y.represents(m),
    ensures
        x == y,
{
    assert forall|a: int| 0 <= a < x.follows.len() implies x.follows[a] =~= y.follows[a] by {
        assert forall|t: u32| x.follows[a].contains(t) == y.follows[a].contains(t) by {}
    }
    assert(x.follows =~= y.follows);
}

/// The table that a vector of rows stands for.
pub open spec fn follow_table(sets: Seq<IndexSet>) -> FollowsModel {
    FollowsModel { follows: Seq::new(sets.len(), |a: int| sets[a]@) }
}

/// One row per nonterminal, each able to hold every terminal.
pub open spec fn rows_shaped(m: GrammarModel, sets: Seq<IndexSet>) -> bool {
    &&& sets.len() == m.nonterms()
    &&& forall|a: int| 0 <= a < sets.len() ==> (#[trigger] sets[a]).capacity() == m.terms()
}

/// Lets every occurrence of a nonterminal in production `p` add to the
/// table what it can; reports whether the table grew.
fn relax(g: &Grammar, firsts: &Firsts, p: u32, sets: &mut Vec<IndexSet>) -> (changed: bool)
    requires
        firsts.grammar() == g@,
        p < g@.prods.len(),
        rows_shaped(g@, old(sets)@),
        follow_table(old(sets)@).sound(g@),
        follow_table(old(sets)@).seeded(g@),
    ensures
        rows_shaped(g@, final(sets)@),
        follow_table(final(sets)@).sound(g@),
        follow_table(final(sets)@).seeded(g@),
        slack(final(sets)@) <= slack(old(sets)@),
        changed ==> slack(final(sets)@) < slack(old(sets)@),
        !changed ==> final(sets)@ == old(sets)@ && forall|i: int|
            0 <= i < g@.prods[p as int].rhs.len() ==> #[trigger] follow_table(
                final(sets)@,
            ).closed_at(g@, p as int, i),
{
    let lhs = g.prod_lhs(p);
    let rhs = g.prod_rhs(p);
    let ghost m = g@;
    proof {
        m.lemma_prod_in_range(p as int);
    }
    let mut changed = false;
    let mut i: usize = 0;
    while i < rhs.len()
        invariant
            m == g@,
            m.wf(),
            firsts.grammar() == m,
            p < m.prods.len(),
            lhs == m.prods[p as int].lhs,
            rhs@ == m.prods[p as int].rhs,
            m.has_symbols(rhs@),
            (lhs as nat) < m.nonterms(),
            (m.start as nat) < m.nonterms(),
            i <= rhs.len(),
            rows_shaped(m, sets@),
            follow_table(sets@).sound(m),
            follow_table(sets@).seeded(m),
            slack(sets@) <= slack(old(sets)@),
            changed ==> slack(sets@) < slack(old(sets)@),
            !changed ==> sets@ == old(sets)@ && forall|j: int|
                0 <= j < i ==> #[trigger] follow_table(sets@).closed_at(m, p as int, j),
        decreases rhs.len() - i,
    {
        let sym = rhs[i];
        let ghost tb = follow_table(sets@);
        proof {
            assert(m.has_symbol(rhs@[i as int]));
        }
        match sym {
            Symbol::Term(_) => {},
            Symbol::Nonterm(b) => {
                let (fs, nul) = firsts.first_set_of_suffix(rhs, i + 1);
                let ghost rest = suffix(m, p as int, i as int);
                let mut acc = sets[b as usize].duplicate();
                let mut grew = acc.union_with(&fs);
                if nul {
                    let more = acc.union_with(&sets[lhs as usize]);
                    if more {
                        grew = true;
                    }
                }
                proof {
                    assert(tb.follows[b as int] == sets@[b as int]@);
                    assert(tb.follows[lhs as int] == sets@[lhs as int]@);
                    assert forall|t: u32| acc@.contains(t) implies follow(m, b, t) by {
                        if tb.follows[b as int].contains(t) {
                        } else if fs@.contains(t) {
                            lemma_follow_from_first(m, p as int, i as int, b, t);
                        } else {
                            assert(tb.follows[lhs as int].contains(t));
                            lemma_follow_from_parent(m, p as int, i as int, b, t);
                        }
                    }
                    if !grew {
                        assert(acc@ == tb.follows[b as int]);
                        assert forall|t: u32|
                            (seq_first(m, rest, t) || (all_nullable(m, rest)
                                && tb.follows[lhs as int].contains(t)))
                            implies #[trigger] tb.follows[b as int].contains(t) by {
                            if seq_first(m, rest, t) {
                                assert(fs@.contains(t));
                            }
                            assert(acc@.contains(t));
                        }
                        assert(tb.closed_at(m, p as int, i as int));
                    }
                }
                if grew {
                    let ghost filled = acc@;
                    proof {
                        lemma_slack_update(sets@, b as int, acc);
                    }
                    sets.set(b as usize, acc);
                    changed = true;
                    proof {
                        let now = follow_table(sets@);
                        assert forall|a: int, t: u32|
                            0 <= a < now.follows.len() && #[trigger] now.follows[a].contains(
                                t,
                            ) implies follow(m, a as u32, t) by {
                            if a == b as int {
                                assert(filled.contains(t));
                            } else {
                                assert(tb.follows[a].contains(t));
                            }
                        }
                        assert(tb.follows[m.start as int].contains(m.eof()));
                        assert(now.follows[m.start as int].contains(m.eof()));
                    }
                }
            },
        }
        i = i + 1;
    }
    changed
}

/// Lets every production add to the table once; reports whether the table
/// grew.
fn pass(g: &Grammar, firsts: &Firsts, sets: &mut Vec<IndexSet>) -> (changed: bool)
    requires
        firsts.grammar() == g@,
        rows_shaped(g@, old(sets)@),
        follow_table(old(sets)@).sound(g@),
        follow_table(old(sets)@).seeded(g@),
    ensures
        rows_shaped(g@, final(sets)@),
        follow_table(final(sets)@).sound(g@),
        follow_table(final(sets)@).seeded(g@),
        slack(final(sets)@) <= slack(old(sets)@),
        changed ==> slack(final(sets)@) < slack(old(sets)@),
        !changed ==> follow_table(final(sets)@).closed(g@),
{
    let n = g.prods_len();
    let mut changed = false;
    let mut p: u32 = 0;
    while p < n
        invariant
            p <= n,
            n == g@.prods.len(),
            firsts.grammar() == g@,
            rows_shaped(g@, sets@),
            follow_table(sets@).sound(g@),
            follow_table(sets@).seeded(g@),
            slack(sets@) <= slack(old(sets)@),
            changed ==> slack(sets@) < slack(old(sets)@),
            !changed ==> forall|q: int, i: int|
                0 <= q < p && 0 <= i < g@.prods[q].rhs.len() ==> #[trigger] follow_table(
                    sets@,
                ).closed_at(g@, q, i),
        decreases n - p,
    {
        let c = relax(g, firsts, p, sets);
        if c {
            changed = true;
        }
        p = p + 1;
    }
    changed
}

/// FOLLOW sets of one grammar.
pub struct Follows {
    sets: Vec<IndexSet>,
    model: Ghost<GrammarModel>,
}

impl Follows {
    /// The grammar the table was computed for.
    pub closed spec fn grammar(&self) -> GrammarModel {
        self.model@
    }

    /// The table as mathematics.
    pub closed spec fn view(&self) -> FollowsModel {
        follow_table(self.sets@)
    }

    #[verifier::type_invariant]
    closed spec fn inv(&self) -> bool {
        &&& self.model@.wf()
        &&& rows_shaped(self.model@, self.sets@)
        &&& follow_table(self.sets@).represents(self.model@)
    }

    /// Computes FOLLOW of `g` from its FIRST table by iterating to the
    /// fixed point.
    pub fn new(g: &Grammar, firsts: &Firsts) -> (f: Follows)
        requires
            firsts.grammar() == g@,
        ensures
            f.grammar() == g@,
            f@.represents(g@),
    {
        let terms = g.terms_len();
        let nonterms = g.nonterms_len();
        let start = g.start_rule();
        let eof = g.eof_term();
        let ghost m = g@;
        let mut sets: Vec<IndexSet> = Vec::new();
        let mut a: u32 = 0;
        while a < nonterms
            invariant
                m == g@,
                m.wf(),
                start == m.start,
                eof == m.eof(),
                terms == m.terms(),
                a <= nonterms,
                sets@.len() == a,
                forall|b: int| 0 <= b < a ==> (#[trigger] sets@[b]).capacity() == terms,
                forall|b: int, t: u32|
                    0 <= b < a && #[trigger] sets@[b]@.contains(t) ==> b == start && t == eof,
                start < a ==> sets@[start as int]@.contains(eof),
            decreases nonterms - a,
        {
            let mut row = IndexSet::new(terms);
            if a == start {
                row.insert(eof);
            }
            sets.push(row);
            a = a + 1;
        }
        proof {
            let tb = follow_table(sets@);
            assert forall|b: int, t: u32|
                0 <= b < tb.follows.len() && #[trigger] tb.follows[b].contains(t) implies follow(
                m,
                b as u32,
                t,
            ) by {
                assert(sets@[b]@.contains(t));
                assert(follow_within(m, start, eof, 1));
            }
        }
        let mut going = true;
        while going
            invariant
                m == g@,
                m.wf(),
                firsts.grammar() == m,
                rows_shaped(m, sets@),
                follow_table(sets@).sound(m),
                follow_table(sets@).seeded(m),
                !going ==> follow_table(sets@).closed(m),
            decreases slack(sets@) + if going { 1nat } else { 0nat },
        {
            let changed = pass(g, firsts, &mut sets);
            going = changed;
        }
        proof {
            lemma_follow_fixed_point_is_exact(m, follow_table(sets@));
        }
        Follows { sets, model: Ghost(m) }
    }

    /// FOLLOW of nonterminal `a`.
    pub fn follow_set(&self, a: u32) -> (r: &IndexSet)
        requires
            a < self.grammar().nonterms(),
        ensures
            r.capacity() == self.grammar().terms(),
            forall|t: u32| r@.contains(t) <==> follow(self.grammar(), a, t),
            self@.represents(self.grammar()),
    {
        proof {
            use_type_invariant(self);
        }
        let r = &self.sets[a as usize];
        proof {
            assert(self@.follows[a as int] == r@);
        }
        r
    }
}

} // verus!
