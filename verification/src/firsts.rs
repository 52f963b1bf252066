//! FIRST sets and nullability, computed to a fixed point.

use vstd::prelude::*;
use crate::grammar::Grammar;
use crate::index_set::IndexSet;
use crate::symbol::{GrammarModel, Symbol};

verus! {

/// `s` derives the empty string by a derivation tree of height at most `n`.
pub open spec fn nullable_within(m: GrammarModel, s: Symbol, n: nat) -> bool
    decreases n,
{
    match s {
        Symbol::Term(_) => false,
        Symbol::Nonterm(a) => if n == 0 {
            false
        } else {
            exists|p: int|
                0 <= p < m.prods.len() && (#[trigger] m.prods[p]).lhs == a && forall|k: int|
                    0 <= k < m.prods[p].rhs.len() ==> nullable_within(
                        m,
                        #[trigger] m.prods[p].rhs[k],
                        (n - 1) as nat,
                    )
        },
    }
}

/// Every symbol of `form` is nullable within `n`.
pub open spec fn all_nullable_within(m: GrammarModel, form: Seq<Symbol>, n: nat) -> bool {
    forall|k: int| 0 <= k < form.len() ==> nullable_within(m, #[trigger] form[k], n)
}

/// Production `p` belongs to `a` and each symbol of its right-hand side is
/// nullable within `n`.
pub open spec fn nullable_by(m: GrammarModel, a: u32, p: int, n: nat) -> bool {
    &&& 0 <= p < m.prods.len()
    &&& m.prods[p].lhs == a
    &&& all_nullable_within(m, m.prods[p].rhs, n)
}

/// `s` is nullable: it belongs to the least set of symbols closed under
/// "a nonterminal with a production of nullable symbols is nullable".
pub open spec fn nullable(m: GrammarModel, s: Symbol) -> bool {
    exists|n: nat| nullable_within(m, s, n)
}

/// Every symbol of `form` is nullable.
pub open spec fn all_nullable(m: GrammarModel, form: Seq<Symbol>) -> bool {
    forall|k: int| 0 <= k < form.len() ==> nullable(m, #[trigger] form[k])
}

/// Terminal `t` begins `s` by a chain of at most `n` productions, each
/// entered behind a nullable prefix.
pub open spec fn first_within(m: GrammarModel, s: Symbol, t: u32, n: nat) -> bool
    decreases n,
{
    match s {
        Symbol::Term(u) => u == t && (t as nat) < m.terms(),
        Symbol::Nonterm(a) => if n == 0 {
            false
        } else {
            exists|p: int, k: int|
                0 <= p < m.prods.len() && m.prods[p].lhs == a && 0 <= k < m.prods[p].rhs.len()
                    && all_nullable(m, m.prods[p].rhs.subrange(0, k)) && first_within(
                    m,
                    #[trigger] m.prods[p].rhs[k],
                    t,
                    (n - 1) as nat,
                )
        },
    }
}

/// Production `p` belongs to `a`, the symbols before position `k` of its
/// right-hand side are nullable, and `t` begins the symbol at `k` within `n`.
pub open spec fn first_by(m: GrammarModel, a: u32, t: u32, p: int, k: int, n: nat) -> bool {
    &&& 0 <= p < m.prods.len()
    &&& m.prods[p].lhs == a
    &&& 0 <= k < m.prods[p].rhs.len()
    &&& all_nullable(m, m.prods[p].rhs.subrange(0, k))
    &&& first_within(m, m.prods[p].rhs[k], t, n)
}

/// `t` is in FIRST(`s`).
pub open spec fn first(m: GrammarModel, s: Symbol, t: u32) -> bool {
    exists|n: nat| first_within(m, s, t, n)
}

/// `t` is in FIRST of the sequence `form`: it begins the symbol at some
/// position `k` whose predecessors are all nullable.
pub open spec fn seq_first(m: GrammarModel, form: Seq<Symbol>, t: u32) -> bool {
    exists|k: int| #[trigger] seq_first_at(m, form, t, k)
}

pub open spec fn seq_first_at(m: GrammarModel, form: Seq<Symbol>, t: u32, k: int) -> bool {
    &&& 0 <= k < form.len()
    &&& all_nullable(m, form.subrange(0, k))
    &&& first(m, form[k], t)
}

/// The FIRST table as mathematics: a FIRST set per nonterminal and the set
/// of nullable nonterminals.
pub struct FirstsModel {
    pub firsts: Seq<Set<u32>>,
    pub nullable: Set<u32>,
}

impl FirstsModel {
    /// The table holds exactly FIRST and nullability of grammar `m`.
    pub open spec fn represents(self, m: GrammarModel) -> bool {
        &&& self.firsts.len() == m.nonterms()
        &&& forall|a: int, t: u32|
            0 <= a < self.firsts.len() ==> (#[trigger] self.firsts[a].contains(t) <==> first(
                m,
                Symbol::Nonterm(a as u32),
                t,
            ))
        &&& forall|a: u32| #[trigger] self.nullable.contains(a) <==> nullable(m, Symbol::Nonterm(a))
    }

    /// What the table says of nullability of `s`.
    pub open spec fn flagged(self, s: Symbol) -> bool {
        match s {
            Symbol::Term(_) => false,
            Symbol::Nonterm(b) => self.nullable.contains(b),
        }
    }

    /// What the table says of FIRST(`s`).
    pub open spec fn first_of(self, s: Symbol, t: u32) -> bool {
        match s {
            Symbol::Term(u) => u == t,
            Symbol::Nonterm(b) => (b as int) < self.firsts.len() && self.firsts[b as int].contains(t),
        }
    }

    /// The table says that every symbol of `form` before `k` is nullable.
    pub open spec fn prefix_flagged(self, form: Seq<Symbol>, k: int) -> bool {
        forall|j: int| 0 <= j < k && j < form.len() ==> self.flagged(#[trigger] form[j])
    }

    /// Production `p` can add nothing to the table.
    pub open spec fn closed_for(self, m: GrammarModel, p: int) -> bool {
        let rhs = m.prods[p].rhs;
        let a = m.prods[p].lhs;
        &&& forall|k: int, t: u32|
            0 <= k < rhs.len() && self.prefix_flagged(rhs, k) && #[trigger] self.first_of(rhs[k], t)
                ==> self.firsts[a as int].contains(t)
        &&& self.prefix_flagged(rhs, rhs.len() as int) ==> self.nullable.contains(a)
    }

    /// No production can add anything to the table.
    pub open spec fn closed(self, m: GrammarModel) -> bool {
        forall|p: int| 0 <= p < m.prods.len() ==> #[trigger] self.closed_for(m, p)
    }

    /// Everything in the table is in FIRST, respectively nullable.
    pub open spec fn sound(self, m: GrammarModel) -> bool {
        &&& self.firsts.len() == m.nonterms()
        &&& forall|a: int, t: u32|
            0 <= a < self.firsts.len() && #[trigger] self.firsts[a].contains(t) ==> first(
                m,
                Symbol::Nonterm(a as u32),
                t,
            )
        &&& forall|a: u32| #[trigger] self.nullable.contains(a) ==> nullable(m, Symbol::Nonterm(a))
    }
}

/// The production by which a nonterminal is nullable within `n`.
pub proof fn lemma_nullable_witness(m: GrammarModel, a: u32, n: nat) -> (p: int)
    requires
        nullable_within(m, Symbol::Nonterm(a), n),
    ensures
        n > 0,
        nullable_by(m, a, p, (n - 1) as nat),
{
    choose|p: int|
        0 <= p < m.prods.len() && (#[trigger] m.prods[p]).lhs == a && forall|k: int|
            0 <= k < m.prods[p].rhs.len() ==> nullable_within(
                m,
                #[trigger] m.prods[p].rhs[k],
                (n - 1) as nat,
            )
}

/// The production and position by which `t` begins a nonterminal within `n`.
pub proof fn lemma_first_witness(m: GrammarModel, a: u32, t: u32, n: nat) -> (w: (int, int))
    requires
        first_within(m, Symbol::Nonterm(a), t, n),
    ensures
        n > 0,
        first_by(m, a, t, w.0, w.1, (n - 1) as nat),
{
    choose|p: int, k: int|
        0 <= p < m.prods.len() && m.prods[p].lhs == a && 0 <= k < m.prods[p].rhs.len()
            && all_nullable(m, m.prods[p].rhs.subrange(0, k)) && first_within(
            m,
            #[trigger] m.prods[p].rhs[k],
            t,
            (n - 1) as nat,
        )
}

/// Nullability within a height holds within every greater height.
pub proof fn lemma_nullable_mono(m: GrammarModel, s: Symbol, n: nat, n2: nat)
    requires
        nullable_within(m, s, n),
        n <= n2,
    ensures
        nullable_within(m, s, n2),
    decreases n,
{
    match s {
        Symbol::Term(_) => {},
        Symbol::Nonterm(a) => {
            let p = lemma_nullable_witness(m, a, n);
            let rhs = m.prods[p].rhs;
            assert forall|k: int| 0 <= k < rhs.len() implies nullable_within(
                m,
                #[trigger] rhs[k],
                (n2 - 1) as nat,
            ) by {
                lemma_nullable_mono(m, rhs[k], (n - 1) as nat, (n2 - 1) as nat);
            }
            assert(nullable_by(m, a, p, (n2 - 1) as nat));
        },
    }
}

/// A sequence of nullable symbols is nullable within one common height.
pub proof fn lemma_common_height(m: GrammarModel, form: Seq<Symbol>) -> (n: nat)
    requires
        all_nullable(m, form),
    ensures
        all_nullable_within(m, form, n),
    decreases form.len(),
{
    if form.len() == 0 {
        0
    } else {
        let front = form.drop_last();
        assert forall|k: int| 0 <= k < front.len() implies nullable(m, #[trigger] front[k]) by {
            assert(front[k] == form[k]);
        }
        let n1 = lemma_common_height(m, front);
        let tail = form[form.len() - 1];
        assert(nullable(m, tail));
        let n2 = choose|n2: nat| nullable_within(m, tail, n2);
        let n = if n1 >= n2 { n1 } else { n2 };
        assert forall|k: int| 0 <= k < form.len() implies nullable_within(m, #[trigger] form[k], n) by {
            if k < front.len() {
                assert(front[k] == form[k]);
                lemma_nullable_mono(m, form[k], n1, n);
            } else {
                lemma_nullable_mono(m, form[k], n2, n);
            }
        }
        n
    }
}

/// A nonterminal with a production of nullable symbols is nullable.
pub proof fn lemma_nullable_intro(m: GrammarModel, p: int)
    requires
        0 <= p < m.prods.len(),
        all_nullable(m, m.prods[p].rhs),
    ensures
        nullable(m, Symbol::Nonterm(m.prods[p].lhs)),
{
    let n = lemma_common_height(m, m.prods[p].rhs);
    assert(nullable_by(m, m.prods[p].lhs, p, n));
    assert(nullable_within(m, Symbol::Nonterm(m.prods[p].lhs), n + 1));
}

/// What begins a symbol behind a nullable prefix of a production begins
/// the production's nonterminal.
pub proof fn lemma_first_intro(m: GrammarModel, p: int, k: int, t: u32)
    requires
        0 <= p < m.prods.len(),
        0 <= k < m.prods[p].rhs.len(),
        all_nullable(m, m.prods[p].rhs.subrange(0, k)),
        first(m, m.prods[p].rhs[k], t),
    ensures
        first(m, Symbol::Nonterm(m.prods[p].lhs), t),
{
    let n = choose|n: nat| first_within(m, m.prods[p].rhs[k], t, n);
    assert(first_by(m, m.prods[p].lhs, t, p, k, n));
    assert(first_within(m, Symbol::Nonterm(m.prods[p].lhs), t, n + 1));
}

/// A closed table flags every nullable symbol.
pub proof fn lemma_nullable_complete(m: GrammarModel, tb: FirstsModel, s: Symbol, n: nat)
    requires
        m.wf(),
        tb.closed(m),
        nullable_within(m, s, n),
    ensures
        tb.flagged(s),
    decreases n,
{
    match s {
        Symbol::Term(_) => {},
        Symbol::Nonterm(a) => {
            let p = lemma_nullable_witness(m, a, n);
            let rhs = m.prods[p].rhs;
            assert forall|j: int| 0 <= j < rhs.len() implies tb.flagged(#[trigger] rhs[j]) by {
                lemma_nullable_complete(m, tb, rhs[j], (n - 1) as nat);
            }
            assert(tb.prefix_flagged(rhs, rhs.len() as int));
            assert(tb.closed_for(m, p));
        },
    }
}

/// A closed table holds every member of FIRST.
pub proof fn lemma_first_complete(m: GrammarModel, tb: FirstsModel, s: Symbol, t: u32, n: nat)
    requires
        m.wf(),
        tb.firsts.len() == m.nonterms(),
        tb.closed(m),
        first_within(m, s, t, n),
    ensures
        tb.first_of(s, t),
    decreases n,
{
    match s {
        Symbol::Term(_) => {},
        Symbol::Nonterm(a) => {
            let (p, k) = lemma_first_witness(m, a, t, n);
            let rhs = m.prods[p].rhs;
            m.lemma_prod_in_range(p);
            lemma_first_complete(m, tb, rhs[k], t, (n - 1) as nat);
            assert forall|j: int| 0 <= j < k && j < rhs.len() implies tb.flagged(#[trigger] rhs[j]) by {
                let front = rhs.subrange(0, k);
                assert(front[j] == rhs[j]);
                assert(nullable(m, front[j]));
                let h = choose|h: nat| nullable_within(m, rhs[j], h);
                lemma_nullable_complete(m, tb, rhs[j], h);
            }
            assert(tb.prefix_flagged(rhs, k));
            assert(tb.closed_for(m, p));
            assert(tb.first_of(rhs[k], t));
        },
    }
}

/// A sound and closed table is exactly FIRST and nullability.
pub proof fn lemma_fixed_point_is_exact(m: GrammarModel, tb: FirstsModel)
    requires
        m.wf(),
        tb.sound(m),
        tb.closed(m),
    ensures
        tb.represents(m),
{
    assert forall|a: int, t: u32| 0 <= a < tb.firsts.len() && first(m, Symbol::Nonterm(a as u32), t)
        implies #[trigger] tb.firsts[a].contains(t) by {
        let s = Symbol::Nonterm(a as u32);
        let n = choose|n: nat| first_within(m, s, t, n);
        lemma_first_complete(m, tb, s, t, n);
    }
    assert forall|a: u32| nullable(m, Symbol::Nonterm(a)) implies #[trigger] tb.nullable.contains(
        a,
    ) by {
        let s = Symbol::Nonterm(a);
        let n = choose|n: nat| nullable_within(m, s, n);
        lemma_nullable_complete(m, tb, s, n);
    }
}

/// There is one FIRST table per grammar: computing it again changes nothing.
pub proof fn lemma_firsts_unique(m: GrammarModel, x: FirstsModel, y: FirstsModel)
    requires
        x.represents(m),
        y.represents(m),
    ensures
        x == y,
{
    assert forall|a: int| 0 <= a < x.firsts.len() implies x.firsts[a] =~= y.firsts[a] by {
        assert forall|t: u32| x.firsts[a].contains(t) == y.firsts[a].contains(t) by {}
    }
    assert(x.firsts =~= y.firsts);
    assert(x.nullable =~= y.nullable);
}

/// The table that a vector of rows and a set of flags stand for.
pub open spec fn table_of(sets: Seq<IndexSet>, nullable: IndexSet) -> FirstsModel {
    FirstsModel { firsts: Seq::new(sets.len(), |a: int| sets[a]@), nullable: nullable@ }
}

/// One row per nonterminal, each able to hold every terminal, and one flag
/// per nonterminal.
pub open spec fn shaped(m: GrammarModel, sets: Seq<IndexSet>, nullable: IndexSet) -> bool {
    &&& sets.len() == m.nonterms()
    &&& forall|a: int| 0 <= a < sets.len() ==> (#[trigger] sets[a]).capacity() == m.terms()
    &&& nullable.capacity() == m.nonterms()
}

/// How many more members the rows could take in all.
pub open spec fn slack(sets: Seq<IndexSet>) -> nat
    decreases sets.len(),
{
    if sets.len() == 0 {
        0
    } else {
        slack(sets.drop_last()) + sets.last().vacancy()
    }
}

/// Replacing a row by a fuller one of the same capacity lowers the slack by
/// the number of members gained.
pub proof fn lemma_slack_update(sets: Seq<IndexSet>, a: int, row: IndexSet)
    requires
        0 <= a < sets.len(),
        row.capacity() == sets[a].capacity(),
        row.count() >= sets[a].count(),
    ensures
        slack(sets.update(a, row)) + (row.count() - sets[a].count()) == slack(sets),
    decreases sets.len(),
{
    row.lemma_bounds();
    sets[a].lemma_bounds();
    let u = sets.update(a, row);
    if a == sets.len() - 1 {
        assert(u.drop_last() =~= sets.drop_last());
    } else {
        lemma_slack_update(sets.drop_last(), a, row);
        assert(u.drop_last() =~= sets.drop_last().update(a, row));
    }
}

/// Only nonterminals of the grammar have anything in FIRST or are nullable.
pub proof fn lemma_outside_is_empty(m: GrammarModel, a: u32)
    requires
        m.wf(),
        (a as nat) >= m.nonterms(),
    ensures
        !nullable(m, Symbol::Nonterm(a)),
        forall|t: u32| !first(m, Symbol::Nonterm(a), t),
{
    let s = Symbol::Nonterm(a);
    assert forall|n: nat| !nullable_within(m, s, n) by {
        if nullable_within(m, s, n) {
            let p = lemma_nullable_witness(m, a, n);
            m.lemma_prod_in_range(p);
        }
    }
    assert forall|t: u32, n: nat| !first_within(m, s, t, n) by {
        if first_within(m, s, t, n) {
            let w = lemma_first_witness(m, a, t, n);
            m.lemma_prod_in_range(w.0);
        }
    }
}

/// Lets production `p` add to the table what it can; reports whether the
/// table grew.
fn relax(g: &Grammar, p: u32, sets: &mut Vec<IndexSet>, flags: &mut IndexSet) -> (changed: bool)
    requires
        p < g@.prods.len(),
        shaped(g@, old(sets)@, *old(flags)),
        table_of(old(sets)@, *old(flags)).sound(g@),
    ensures
        shaped(g@, final(sets)@, *final(flags)),
        table_of(final(sets)@, *final(flags)).sound(g@),
        slack(final(sets)@) + final(flags).vacancy() <= slack(old(sets)@) + old(flags).vacancy(),
        changed ==> slack(final(sets)@) + final(flags).vacancy() < slack(old(sets)@) + old(flags).vacancy(),
        !changed ==> final(sets)@ == old(sets)@ && *final(flags) == *old(flags) && table_of(
            final(sets)@,
            *final(flags),
        ).closed_for(g@, p as int),
{
    let lhs = g.prod_lhs(p);
    let rhs = g.prod_rhs(p);
    let ghost m = g@;
    let ghost tb = table_of(sets@, *flags);
    proof {
        m.lemma_prod_in_range(p as int);
    }
    let mut acc = sets[lhs as usize].duplicate();
    let mut grew = false;
    let mut open = true;
    let mut k: usize = 0;
    proof {
        assert(acc@ == tb.firsts[lhs as int]);
        assert forall|t: u32| #[trigger] acc@.contains(t) implies first(
            m,
            Symbol::Nonterm(lhs),
            t,
        ) by {
            assert(tb.firsts[lhs as int].contains(t));
        }
    }
    while k < rhs.len() && open
        invariant
            m == g@,
            m.wf(),
            p < m.prods.len(),
            lhs == m.prods[p as int].lhs,
            rhs@ == m.prods[p as int].rhs,
            m.has_symbols(rhs@),
            (lhs as nat) < m.nonterms(),
            sets@ == old(sets)@,
            *flags == *old(flags),
            shaped(m, sets@, *flags),
            tb == table_of(sets@, *flags),
            tb.sound(m),
            k <= rhs.len(),
            acc.capacity() == m.terms(),
            forall|t: u32| #[trigger] acc@.contains(t) ==> first(m, Symbol::Nonterm(lhs), t),
            forall|t: u32| tb.firsts[lhs as int].contains(t) ==> #[trigger] acc@.contains(t),
            open ==> tb.prefix_flagged(rhs@, k as int),
            !open ==> k >= 1 && !tb.flagged(rhs@[k - 1]),
            forall|j: int, t: u32|
                0 <= j < k && #[trigger] tb.first_of(rhs@[j], t) ==> acc@.contains(t),
            !grew ==> acc@ == tb.firsts[lhs as int],
            acc.count() >= sets@[lhs as int].count(),
            grew ==> acc.count() > sets@[lhs as int].count(),
        decreases rhs.len() - k,
    {
        let sym = rhs[k];
        let ghost front = rhs@.subrange(0, k as int);
        let ghost before = acc@;
        proof {
            assert forall|j: int| 0 <= j < front.len() implies nullable(m, #[trigger] front[j]) by {
                assert(tb.flagged(rhs@[j]));
            }
            assert(m.has_symbol(rhs@[k as int]));
        }
        match sym {
            Symbol::Term(t) => {
                proof {
                    assert(first_within(m, sym, t, 0));
                    lemma_first_intro(m, p as int, k as int, t);
                }
                let added = acc.insert(t);
                if added {
                    grew = true;
                }
                open = false;
                proof {
                    assert(!tb.flagged(rhs@[k as int]));
                    if !grew {
                        assert(acc@ =~= before);
                    }
                }
            },
            Symbol::Nonterm(b) => {
                let other = &sets[b as usize];
                proof {
                    assert(other@ == tb.firsts[b as int]);
                    assert forall|t: u32| other@.contains(t) implies first(
                        m,
                        Symbol::Nonterm(lhs),
                        t,
                    ) by {
                        assert(tb.firsts[b as int].contains(t));
                        assert(first(m, sym, t));
                        lemma_first_intro(m, p as int, k as int, t);
                    }
                }
                let added = acc.union_with(other);
                if added {
                    grew = true;
                }
                if !flags.contains(b) {
                    open = false;
                }
            },
        }
        k = k + 1;
    }
    let ghost filled = acc@;
    let mut changed = false;
    if grew {
        proof {
            lemma_slack_update(sets@, lhs as int, acc);
        }
        sets.set(lhs as usize, acc);
        changed = true;
    }
    if open {
        if !flags.contains(lhs) {
            proof {
                assert forall|j: int| 0 <= j < rhs@.len() implies nullable(m, #[trigger] rhs@[j]) by {
                    assert(tb.flagged(rhs@[j]));
                }
                lemma_nullable_intro(m, p as int);
            }
            flags.insert(lhs);
            changed = true;
        }
    }
    proof {
        flags.lemma_bounds();
        old(flags).lemma_bounds();
    }
    proof {
        let now = table_of(sets@, *flags);
        assert forall|a: int, t: u32|
            0 <= a < now.firsts.len() && #[trigger] now.firsts[a].contains(t) implies first(
            m,
            Symbol::Nonterm(a as u32),
            t,
        ) by {
            if a == lhs as int {
                assert(filled.contains(t));
            } else {
                assert(tb.firsts[a].contains(t));
            }
        }
        assert forall|a: u32| #[trigger] now.nullable.contains(a) implies nullable(
            m,
            Symbol::Nonterm(a),
        ) by {
            if a != lhs {
                assert(tb.nullable.contains(a));
            }
        }
        if !changed {
            assert(now == tb);
            assert forall|j: int, t: u32|
                0 <= j < rhs@.len() && tb.prefix_flagged(rhs@, j) && #[trigger] tb.first_of(
                    rhs@[j],
                    t,
                ) implies tb.firsts[lhs as int].contains(t) by {
                if j >= k {
                    assert(tb.flagged(rhs@[k - 1]));
                }
            }
            if tb.prefix_flagged(rhs@, rhs@.len() as int) {
                if !open {
                    assert(tb.flagged(rhs@[k - 1]));
                }
            }
        }
    }
    changed
}

/// Lets every production add to the table once; reports whether the table
/// grew.
fn pass(g: &Grammar, sets: &mut Vec<IndexSet>, flags: &mut IndexSet) -> (changed: bool)
    requires
        shaped(g@, old(sets)@, *old(flags)),
        table_of(old(sets)@, *old(flags)).sound(g@),
    ensures
        shaped(g@, final(sets)@, *final(flags)),
        table_of(final(sets)@, *final(flags)).sound(g@),
        slack(final(sets)@) + final(flags).vacancy() <= slack(old(sets)@) + old(flags).vacancy(),
        changed ==> slack(final(sets)@) + final(flags).vacancy() < slack(old(sets)@) + old(flags).vacancy(),
        !changed ==> table_of(final(sets)@, *final(flags)).closed(g@),
{
    let n = g.prods_len();
    let mut changed = false;
    let mut p: u32 = 0;
    while p < n
        invariant
            p <= n,
            n == g@.prods.len(),
            shaped(g@, sets@, *flags),
            table_of(sets@, *flags).sound(g@),
            slack(sets@) + flags.vacancy() <= slack(old(sets)@) + old(flags).vacancy(),
            changed ==> slack(sets@) + flags.vacancy() < slack(old(sets)@) + old(flags).vacancy(),
            !changed ==> forall|q: int|
                0 <= q < p ==> #[trigger] table_of(sets@, *flags).closed_for(g@, q),
        decreases n - p,
    {
        let c = relax(g, p, sets, flags);
        if c {
            changed = true;
        }
        p = p + 1;
    }
    changed
}

/// FIRST sets and nullability of one grammar.
pub struct Firsts {
    sets: Vec<IndexSet>,
    nullable: IndexSet,
    terms: u32,
    model: Ghost<GrammarModel>,
}

impl Firsts {
    /// The grammar the table was computed for.
    pub closed spec fn grammar(&self) -> GrammarModel {
        self.model@
    }

    /// The table as mathematics.
    pub closed spec fn view(&self) -> FirstsModel {
        table_of(self.sets@, self.nullable)
    }

    #[verifier::type_invariant]
    closed spec fn inv(&self) -> bool {
        &&& self.model@.wf()
        &&& self.terms == self.model@.terms()
        &&& shaped(self.model@, self.sets@, self.nullable)
        &&& table_of(self.sets@, self.nullable).represents(self.model@)
    }

    /// Computes FIRST and nullability of `g` by iterating to the fixed point.
    pub fn new(g: &Grammar) -> (f: Firsts)
        ensures
            f.grammar() == g@,
            f@.represents(g@),
    {
        let terms = g.terms_len();
        let nonterms = g.nonterms_len();
        let mut sets: Vec<IndexSet> = Vec::new();
        let mut a: u32 = 0;
        while a < nonterms
            invariant
                a <= nonterms,
                sets@.len() == a,
                forall|b: int| 0 <= b < a ==> (#[trigger] sets@[b]).capacity() == terms,
                forall|b: int| 0 <= b < a ==> (#[trigger] sets@[b])@ == Set::<u32>::empty(),
            decreases nonterms - a,
        {
            sets.push(IndexSet::new(terms));
            a = a + 1;
        }
        let mut flags = IndexSet::new(nonterms);
        let mut going = true;
        while going
            invariant
                g@.wf(),
                shaped(g@, sets@, flags),
                table_of(sets@, flags).sound(g@),
                !going ==> table_of(sets@, flags).closed(g@),
            decreases slack(sets@) + flags.vacancy() + if going { 1nat } else { 0nat },
        {
            let changed = pass(g, &mut sets, &mut flags);
            going = changed;
        }
        proof {
            lemma_fixed_point_is_exact(g@, table_of(sets@, flags));
        }
        Firsts { sets, nullable: flags, terms, model: Ghost(g@) }
    }

    /// Whether `s` is nullable.
    pub fn is_nullable(&self, s: Symbol) -> (r: bool)
        ensures
            r == nullable(self.grammar(), s),
            self@.represents(self.grammar()),
    {
        proof {
            use_type_invariant(self);
        }
        match s {
            Symbol::Term(_) => {
                assert(forall|n: nat| !nullable_within(self.model@, s, n));
                false
            },
            Symbol::Nonterm(a) => {
                let r = self.nullable.contains(a);
                proof {
                    let tb = table_of(self.sets@, self.nullable);
                    assert(tb.nullable.contains(a) <==> nullable(self.model@, Symbol::Nonterm(a)));
                }
                r
            },
        }
    }

    /// FIRST of nonterminal `a`.
    pub fn firsts(&self, a: u32) -> (r: &IndexSet)
        requires
            a < self.grammar().nonterms(),
        ensures
            r.capacity() == self.grammar().terms(),
            forall|t: u32| r@.contains(t) <==> first(self.grammar(), Symbol::Nonterm(a), t),
            self@.represents(self.grammar()),
    {
        proof {
            use_type_invariant(self);
        }
        let r = &self.sets[a as usize];
        proof {
            assert(self@.firsts[a as int] == r@);
        }
        r
    }

    /// FIRST of symbol `s`, and whether `s` is nullable.
    pub fn first_set(&self, s: Symbol) -> (r: (IndexSet, bool))
        ensures
            r.0.capacity() == self.grammar().terms(),
            forall|t: u32| r.0@.contains(t) <==> first(self.grammar(), s, t),
            r.1 == nullable(self.grammar(), s),
    {
        proof {
            use_type_invariant(self);
        }
        let ghost m = self.model@;
        let flag = self.is_nullable(s);
        match s {
            Symbol::Term(u) => {
                let mut set = IndexSet::new(self.terms);
                if u < self.terms {
                    set.insert(u);
                    proof {
                        assert(first_within(m, s, u, 0));
                    }
                }
                proof {
                    assert forall|t: u32| set@.contains(t) <==> first(m, s, t) by {
                        if first(m, s, t) {
                            let n = choose|n: nat| first_within(m, s, t, n);
                            assert(u == t);
                        }
                    }
                }
                (set, flag)
            },
            Symbol::Nonterm(a) => {
                if (a as usize) < self.sets.len() {
                    let set = self.firsts(a).duplicate();
                    (set, flag)
                } else {
                    proof {
                        lemma_outside_is_empty(m, a);
                    }
                    (IndexSet::new(self.terms), flag)
                }
            },
        }
    }

    /// FIRST of the part of `form` from position `from` on, and whether
    /// that part is nullable.
    pub fn first_set_of_suffix(&self, form: &Vec<Symbol>, from: usize) -> (r: (IndexSet, bool))
        requires
            from <= form@.len(),
        ensures
            r.0.capacity() == self.grammar().terms(),
            forall|t: u32|
                r.0@.contains(t) <==> seq_first(
                    self.grammar(),
                    form@.subrange(from as int, form@.len() as int),
                    t,
                ),
            r.1 == all_nullable(self.grammar(), form@.subrange(from as int, form@.len() as int)),
    {
        proof {
            use_type_invariant(self);
        }
        let ghost m = self.model@;
        let ghost rest = form@.subrange(from as int, form@.len() as int);
        let mut acc = IndexSet::new(self.terms);
        let mut open = true;
        let mut k: usize = from;
        while k < form.len() && open
            invariant
                m == self.model@,
                m.wf(),
                self.terms == m.terms(),
                shaped(m, self.sets@, self.nullable),
                table_of(self.sets@, self.nullable).represents(m),
                from <= k <= form@.len(),
                rest == form@.subrange(from as int, form@.len() as int),
                acc.capacity() == m.terms(),
                forall|t: u32|
                    acc@.contains(t) <==> exists|j: int|
                        0 <= j < k - from && #[trigger] seq_first_at(m, rest, t, j),
                open ==> all_nullable(m, rest.subrange(0, k - from)),
                !open ==> k > from && !nullable(m, rest[k - from - 1]),
            decreases form.len() - k,
        {
            let sym = form[k];
            let ghost i = k - from;
            let ghost before = acc@;
            proof {
                assert(rest[i] == sym);
            }
            match sym {
                Symbol::Term(u) => {
                    if u < self.terms {
                        acc.insert(u);
                    }
                },
                Symbol::Nonterm(b) => {
                    if (b as usize) < self.sets.len() {
                        acc.union_with(self.firsts(b));
                    } else {
                        proof {
                            lemma_outside_is_empty(m, b);
                        }
                    }
                },
            }
            proof {
                assert forall|t: u32| acc@.contains(t) <==> (before.contains(t) || first(m, sym, t)) by {
                    match sym {
                        Symbol::Term(u) => {
                            if first(m, sym, t) {
                                let n = choose|n: nat| first_within(m, sym, t, n);
                                assert(u == t);
                            }
                            if u < self.terms && u == t {
                                assert(first_within(m, sym, t, 0));
                            }
                        },
                        Symbol::Nonterm(b) => {},
                    }
                }
                assert forall|t: u32|
                    acc@.contains(t) <==> exists|j: int|
                        0 <= j < i + 1 && #[trigger] seq_first_at(m, rest, t, j) by {
                    if acc@.contains(t) {
                        if before.contains(t) {
                            let j = choose|j: int| 0 <= j < i && #[trigger] seq_first_at(m, rest, t, j);
                            assert(0 <= j < i + 1 && seq_first_at(m, rest, t, j));
                        } else {
                            assert(seq_first_at(m, rest, t, i));
                        }
                    }
                    if exists|j: int| 0 <= j < i + 1 && #[trigger] seq_first_at(m, rest, t, j) {
                        let j = choose|j: int| 0 <= j < i + 1 && #[trigger] seq_first_at(m, rest, t, j);
                        if j < i {
                            assert(before.contains(t));
                        }
                    }
                }
            }
            let flag = self.is_nullable(sym);
            if !flag {
                open = false;
            }
            proof {
                if open {
                    assert forall|j: int| 0 <= j < rest.subrange(0, i + 1).len() implies nullable(
                        m,
                        #[trigger] rest.subrange(0, i + 1)[j],
                    ) by {
                        if j < i {
                            assert(rest.subrange(0, i)[j] == rest[j]);
                        }
                    }
                }
            }
            k = k + 1;
        }
        let whole = open;
        proof {
            let i = k - from;
            assert forall|t: u32| acc@.contains(t) <==> seq_first(m, rest, t) by {
                if seq_first(m, rest, t) {
                    let j = choose|j: int| #[trigger] seq_first_at(m, rest, t, j);
                    if j >= i {
                        assert(rest.subrange(0, j)[i - 1] == rest[i - 1]);
                        assert(nullable(m, rest.subrange(0, j)[i - 1]));
                    }
                }
                if acc@.contains(t) {
                    let j = choose|j: int| 0 <= j < i && #[trigger] seq_first_at(m, rest, t, j);
                    assert(seq_first_at(m, rest, t, j));
                }
            }
            if open {
                assert(rest.subrange(0, i) =~= rest);
            } else {
                assert(!nullable(m, rest[i - 1]));
            }
        }
        (acc, whole)
    }

    /// FIRST of the sequence `form`, and whether the sequence is nullable.
    pub fn first_set_of_sequence(&self, form: &Vec<Symbol>) -> (r: (IndexSet, bool))
        ensures
            r.0.capacity() == self.grammar().terms(),
            forall|t: u32| r.0@.contains(t) <==> seq_first(self.grammar(), form@, t),
            r.1 == all_nullable(self.grammar(), form@),
    {
        proof {
            assert(form@.subrange(0, form@.len() as int) =~= form@);
        }
        self.first_set_of_suffix(form, 0)
    }
}

} // verus!
