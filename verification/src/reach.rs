//! Which nonterminals can be reached from the start, and which can derive
//! a string of terminals.

use vstd::prelude::*;
use crate::derivation::{
    derives, derives_in, lemma_apply, lemma_derives_refl, lemma_derives_trans, lemma_last_step,
    lemma_reach_witness, lemma_reachable_occurs, lemma_rewrite_inside, reach_within, reachable,
    step, step_at, terminals, unit,
};
use crate::grammar::Grammar;
use crate::index_set::IndexSet;
use crate::symbol::{GrammarModel, Symbol};

verus! {

/// `s` derives a string of terminals by a derivation tree of height at
/// most `n`.
pub open spec fn productive_within(m: GrammarModel, s: Symbol, n: nat) -> bool
    decreases n,
{
    match s {
        Symbol::Term(_) => true,
        Symbol::Nonterm(a) => if n == 0 {
            false
        } else {
            exists|p: int|
                0 <= p < m.prods.len() && (#[trigger] m.prods[p]).lhs == a && forall|k: int|
                    0 <= k < m.prods[p].rhs.len() ==> productive_within(
                        m,
                        #[trigger] m.prods[p].rhs[k],
                        (n - 1) as nat,
                    )
        },
    }
}

/// `s` is productive: a terminal, or a nonterminal with a production whose
/// symbols are all productive.
pub open spec fn productive(m: GrammarModel, s: Symbol) -> bool {
    exists|n: nat| productive_within(m, s, n)
}

/// Every symbol of `form` is productive.
pub open spec fn all_productive(m: GrammarModel, form: Seq<Symbol>) -> bool {
    forall|k: int| 0 <= k < form.len() ==> productive(m, #[trigger] form[k])
}

/// Every symbol of `form` is productive within `n`.
pub open spec fn all_productive_within(m: GrammarModel, form: Seq<Symbol>, n: nat) -> bool {
    forall|k: int| 0 <= k < form.len() ==> productive_within(m, #[trigger] form[k], n)
}

/// The production by which a nonterminal is productive within `n`.
pub proof fn lemma_productive_witness(m: GrammarModel, a: u32, n: nat) -> (p: int)
    requires
        productive_within(m, Symbol::Nonterm(a), n),
    ensures
        n > 0,
        0 <= p < m.prods.len(),
        m.prods[p].lhs == a,
        all_productive_within(m, m.prods[p].rhs, (n - 1) as nat),
{
    choose|p: int|
        0 <= p < m.prods.len() && (#[trigger] m.prods[p]).lhs == a && forall|k: int|
            0 <= k < m.prods[p].rhs.len() ==> productive_within(
                m,
                #[trigger] m.prods[p].rhs[k],
                (n - 1) as nat,
            )
}

/// What is productive within a height is so within every greater height.
pub proof fn lemma_productive_mono(m: GrammarModel, s: Symbol, n: nat, n2: nat)
    requires
        productive_within(m, s, n),
        n <= n2,
    ensures
        productive_within(m, s, n2),
    decreases n,
{
    match s {
        Symbol::Term(_) => {},
        Symbol::Nonterm(a) => {
            let p = lemma_productive_witness(m, a, n);
            let rhs = m.prods[p].rhs;
            assert forall|k: int| 0 <= k < rhs.len() implies productive_within(
                m,
                #[trigger] rhs[k],
                (n2 - 1) as nat,
            ) by {
                lemma_productive_mono(m, rhs[k], (n - 1) as nat, (n2 - 1) as nat);
            }
        },
    }
}

/// A sequence of productive symbols is productive within one common
/// height.
pub proof fn lemma_productive_height(m: GrammarModel, form: Seq<Symbol>) -> (n: nat)
    requires
        all_productive(m, form),
    ensures
        all_productive_within(m, form, n),
    decreases form.len(),
{
    if form.len() == 0 {
        0
    } else {
        let front = form.drop_last();
        assert forall|k: int| 0 <= k < front.len() implies productive(m, #[trigger] front[k]) by {
            assert(front[k] == form[k]);
        }
        let n1 = lemma_productive_height(m, front);
        let tail = form[form.len() - 1];
        assert(productive(m, tail));
        let n2 = choose|n2: nat| productive_within(m, tail, n2);
        let n = if n1 >= n2 { n1 } else { n2 };
        assert forall|k: int| 0 <= k < form.len() implies productive_within(
            m,
            #[trigger] form[k],
            n,
        ) by {
            if k < front.len() {
                assert(front[k] == form[k]);
                lemma_productive_mono(m, form[k], n1, n);
            } else {
                lemma_productive_mono(m, form[k], n2, n);
            }
        }
        n
    }
}

/// A nonterminal with a production of productive symbols is productive.
pub proof fn lemma_productive_intro(m: GrammarModel, p: int)
    requires
        0 <= p < m.prods.len(),
        all_productive(m, m.prods[p].rhs),
    ensures
        productive(m, Symbol::Nonterm(m.prods[p].lhs)),
{
    let n = lemma_productive_height(m, m.prods[p].rhs);
    assert(productive_within(m, Symbol::Nonterm(m.prods[p].lhs), n + 1));
}

/// What a set of nonterminals says of symbol `s`: terminals are in,
/// nonterminals where they are members.
pub open spec fn holds(set: Set<u32>, s: Symbol) -> bool {
    match s {
        Symbol::Term(_) => true,
        Symbol::Nonterm(b) => set.contains(b),
    }
}

/// Every symbol of `form` is held by `set`.
pub open spec fn holds_all(set: Set<u32>, form: Seq<Symbol>) -> bool {
    forall|k: int| 0 <= k < form.len() ==> holds(set, #[trigger] form[k])
}

/// Production `p` can add nothing to the set of productive nonterminals.
pub open spec fn productive_closed_for(set: Set<u32>, m: GrammarModel, p: int) -> bool {
    holds_all(set, m.prods[p].rhs) ==> set.contains(m.prods[p].lhs)
}

/// Production `p` can add nothing to the set of reachable nonterminals.
pub open spec fn reach_closed_for(set: Set<u32>, m: GrammarModel, p: int) -> bool {
    set.contains(m.prods[p].lhs) ==> forall|k: int|
        0 <= k < m.prods[p].rhs.len() ==> holds(set, #[trigger] m.prods[p].rhs[k])
}

/// A set that no production can add to holds every productive symbol.
pub proof fn lemma_productive_complete(m: GrammarModel, set: Set<u32>, s: Symbol, n: nat)
    requires
        forall|p: int| 0 <= p < m.prods.len() ==> #[trigger] productive_closed_for(set, m, p),
        productive_within(m, s, n),
    ensures
        holds(set, s),
    decreases n,
{
    match s {
        Symbol::Term(_) => {},
        Symbol::Nonterm(a) => {
            let p = lemma_productive_witness(m, a, n);
            let rhs = m.prods[p].rhs;
            assert forall|k: int| 0 <= k < rhs.len() implies holds(set, #[trigger] rhs[k]) by {
                lemma_productive_complete(m, set, rhs[k], (n - 1) as nat);
            }
            assert(productive_closed_for(set, m, p));
        },
    }
}

/// A set that holds the augmented start and that no production can add
/// to holds every reachable nonterminal.
pub proof fn lemma_reach_complete(m: GrammarModel, set: Set<u32>, a: u32, n: nat)
    requires
        set.contains(m.augmented()),
        forall|p: int| 0 <= p < m.prods.len() ==> #[trigger] reach_closed_for(set, m, p),
        reach_within(m, a, n),
    ensures
        set.contains(a),
    decreases n,
{
    if a != m.augmented() {
        let (p, i) = lemma_reach_witness(m, a, n);
        lemma_reach_complete(m, set, m.prods[p].lhs, (n - 1) as nat);
        assert(reach_closed_for(set, m, p));
        assert(holds(set, m.prods[p].rhs[i]));
    }
}

/// A nonterminal that occurs in a production of a reachable nonterminal
/// is reachable.
pub proof fn lemma_reach_intro(m: GrammarModel, p: int, i: int, b: u32)
    requires
        0 <= p < m.prods.len(),
        0 <= i < m.prods[p].rhs.len(),
        m.prods[p].rhs[i] == Symbol::Nonterm(b),
        reachable(m, m.prods[p].lhs),
    ensures
        reachable(m, b),
{
    let lhs = m.prods[p].lhs;
    let n = choose|n: nat| reach_within(m, lhs, n);
    assert(reach_within(m, b, n + 1));
}

/// What reachability says of symbol `s`: terminals pass, nonterminals
/// where they are reachable.
pub open spec fn reached(m: GrammarModel, s: Symbol) -> bool {
    match s {
        Symbol::Term(_) => true,
        Symbol::Nonterm(b) => reachable(m, b),
    }
}

/// Every nonterminal of a form derived from the augmented start is
/// reachable.
pub proof fn lemma_derived_is_reached(m: GrammarModel, form: Seq<Symbol>, n: nat)
    requires
        derives_in(m, unit(Symbol::Nonterm(m.augmented())), form, n),
    ensures
        forall|i: int| 0 <= i < form.len() ==> reached(m, #[trigger] form[i]),
    decreases n,
{
    if n == 0 {
        assert(reach_within(m, m.augmented(), 0));
    } else {
        let c = lemma_last_step(m, unit(Symbol::Nonterm(m.augmented())), form, n);
        lemma_derived_is_reached(m, c, (n - 1) as nat);
        let (i, p) = choose|i: int, p: int| #[trigger] step_at(m, c, form, i, p);
        let rhs = m.prods[p].rhs;
        assert(reached(m, c[i]));
        assert forall|x: int| 0 <= x < form.len() implies reached(m, #[trigger] form[x]) by {
            if x < i {
                assert(form[x] == c[x]);
            } else if x < i + rhs.len() {
                let j = x - i;
                assert(form[x] == rhs[j]);
                match rhs[j] {
                    Symbol::Term(_) => {},
                    Symbol::Nonterm(b) => {
                        lemma_reach_intro(m, p, j, b);
                    },
                }
            } else {
                assert(form[x] == c[x - rhs.len() + 1]);
            }
        }
    }
}

/// A nonterminal is reachable if and only if it occurs in some form
/// derivable from the augmented start.
pub proof fn lemma_reachable_iff_occurs(m: GrammarModel, a: u32)
    ensures
        reachable(m, a) <==> exists|l: Seq<Symbol>, r: Seq<Symbol>| #[trigger]
            derives(
                m,
                unit(Symbol::Nonterm(m.augmented())),
                l + unit(Symbol::Nonterm(a)) + r,
            ),
{
    let root = unit(Symbol::Nonterm(m.augmented()));
    if reachable(m, a) {
        let h = choose|h: nat| reach_within(m, a, h);
        let (l, r) = lemma_reachable_occurs(m, a, h);
        assert(derives(m, root, l + unit(Symbol::Nonterm(a)) + r));
    }
    if exists|l: Seq<Symbol>, r: Seq<Symbol>| #[trigger]
        derives(m, root, l + unit(Symbol::Nonterm(a)) + r) {
        let (l, r) = choose|l: Seq<Symbol>, r: Seq<Symbol>| #[trigger]
            derives(m, root, l + unit(Symbol::Nonterm(a)) + r);
        let form = l + unit(Symbol::Nonterm(a)) + r;
        let n = choose|n: nat| derives_in(m, root, form, n);
        lemma_derived_is_reached(m, form, n);
        assert(form[l.len() as int] == Symbol::Nonterm(a));
        assert(reached(m, form[l.len() as int]));
    }
}

/// A symbol that is productive within `n` derives a string of terminals;
/// the result is that string.
pub proof fn lemma_productive_yields(m: GrammarModel, s: Symbol, n: nat) -> (w: Seq<u32>)
    requires
        productive_within(m, s, n),
    ensures
        derives(m, unit(s), terminals(w)),
    decreases n, 0nat,
{
    match s {
        Symbol::Term(t) => {
            let w = Seq::<u32>::empty().push(t);
            assert(unit(s) =~= terminals(w));
            lemma_derives_refl(m, unit(s));
            w
        },
        Symbol::Nonterm(a) => {
            let p = lemma_productive_witness(m, a, n);
            lemma_apply(m, p);
            let w = lemma_all_productive_yield(m, m.prods[p].rhs, (n - 1) as nat);
            lemma_derives_trans(m, unit(s), m.prods[p].rhs, terminals(w));
            w
        },
    }
}

/// A form of symbols that are productive within `n` derives a string of
/// terminals; the result is that string.
pub proof fn lemma_all_productive_yield(m: GrammarModel, form: Seq<Symbol>, n: nat) -> (w: Seq<u32>)
    requires
        all_productive_within(m, form, n),
    ensures
        derives(m, form, terminals(w)),
    decreases n, 1 + form.len(),
{
    let none = Seq::<Symbol>::empty();
    if form.len() == 0 {
        let w = Seq::<u32>::empty();
        assert(form =~= terminals(w));
        lemma_derives_refl(m, form);
        w
    } else {
        let rest = form.subrange(1, form.len() as int);
        assert(productive_within(m, form[0], n));
        let head = lemma_productive_yields(m, form[0], n);
        assert forall|k: int| 0 <= k < rest.len() implies productive_within(
            m,
            #[trigger] rest[k],
            n,
        ) by {
            assert(rest[k] == form[k + 1]);
        }
        let tail = lemma_all_productive_yield(m, rest, n);
        lemma_derives_refl(m, form);
        assert(form =~= none + unit(form[0]) + rest);
        lemma_rewrite_inside(m, form, none, unit(form[0]), terminals(head), rest);
        assert(none + terminals(head) + rest =~= terminals(head) + rest + none);
        lemma_rewrite_inside(m, form, terminals(head), rest, terminals(tail), none);
        assert(terminals(head) + terminals(tail) + none =~= terminals(head + tail));
        head + tail
    }
}

/// Every symbol of a form that derives a string of terminals is
/// productive.
pub proof fn lemma_yielding_is_productive(m: GrammarModel, form: Seq<Symbol>, w: Seq<u32>, n: nat)
    requires
        derives_in(m, form, terminals(w), n),
    ensures
        all_productive(m, form),
    decreases n,
{
    if n == 0 {
        assert forall|k: int| 0 <= k < form.len() implies productive(m, #[trigger] form[k]) by {
            assert(form[k] == Symbol::Term(w[k]));
            assert(productive_within(m, form[k], 0));
        }
    } else {
        let c = choose|c: Seq<Symbol>| #[trigger] step(m, form, c) && derives_in(m, c, terminals(w), (n - 1) as nat);
        let (i, p) = choose|i: int, p: int| #[trigger] step_at(m, form, c, i, p);
        lemma_yielding_is_productive(m, c, w, (n - 1) as nat);
        let rhs = m.prods[p].rhs;
        assert forall|j: int| 0 <= j < rhs.len() implies productive(m, #[trigger] rhs[j]) by {
            assert(c[i + j] == rhs[j]);
        }
        lemma_productive_intro(m, p);
        assert forall|k: int| 0 <= k < form.len() implies productive(m, #[trigger] form[k]) by {
            if k < i {
                assert(c[k] == form[k]);
            } else if k > i {
                assert(c[k - 1 + rhs.len()] == form[k]);
            }
        }
    }
}

/// A nonterminal is productive if and only if some string of terminals is
/// derivable from it.
pub proof fn lemma_productive_iff_yields(m: GrammarModel, a: u32)
    ensures
        productive(m, Symbol::Nonterm(a)) <==> exists|w: Seq<u32>| #[trigger]
            derives(m, unit(Symbol::Nonterm(a)), terminals(w)),
{
    let s = Symbol::Nonterm(a);
    if productive(m, s) {
        let n = choose|n: nat| productive_within(m, s, n);
        let w = lemma_productive_yields(m, s, n);
        assert(derives(m, unit(s), terminals(w)));
    }
    if exists|w: Seq<u32>| #[trigger] derives(m, unit(s), terminals(w)) {
        let w = choose|w: Seq<u32>| #[trigger] derives(m, unit(s), terminals(w));
        let n = choose|n: nat| derives_in(m, unit(s), terminals(w), n);
        lemma_yielding_is_productive(m, unit(s), w, n);
        assert(unit(s)[0] == s);
    }
}

/// The reachable nonterminals of `g`.
pub fn reachable_set(g: &Grammar) -> (set: IndexSet)
    ensures
        set.capacity() == g@.nonterms(),
        forall|a: u32| set@.contains(a) <==> reachable(g@, a),
{
    let nonterms = g.nonterms_len();
    let n = g.prods_len();
    let ghost m = g@;
    let mut set = IndexSet::new(nonterms);
    set.insert(g.augmented_rule());
    proof {
        assert(reach_within(m, m.augmented(), 0));
    }
    let mut going = true;
    while going
        invariant
            m == g@,
            m.wf(),
            n == m.prods.len(),
            nonterms == m.nonterms(),
            set.capacity() == nonterms,
            set@.contains(m.augmented()),
            forall|a: u32| #[trigger] set@.contains(a) ==> reachable(m, a),
            !going ==> forall|p: int|
                0 <= p < m.prods.len() ==> #[trigger] reach_closed_for(set@, m, p),
        decreases set.vacancy() + if going { 1nat } else { 0nat },
    {
        let ghost at_start = set;
        let mut changed = false;
        let mut p: u32 = 0;
        while p < n
            invariant
                m == g@,
                m.wf(),
                n == m.prods.len(),
                nonterms == m.nonterms(),
                p <= n,
                set.capacity() == nonterms,
                set@.contains(m.augmented()),
                forall|a: u32| #[trigger] set@.contains(a) ==> reachable(m, a),
                set.count() >= at_start.count(),
                changed ==> set.count() > at_start.count(),
                set.capacity() == at_start.capacity(),
                !changed ==> forall|q: int| 0 <= q < p ==> #[trigger] reach_closed_for(set@, m, q),
            decreases n - p,
        {
            let lhs = g.prod_lhs(p);
            let rhs = g.prod_rhs(p);
            proof {
                m.lemma_prod_in_range(p as int);
            }
            if set.contains(lhs) {
                let mut k: usize = 0;
                while k < rhs.len()
                    invariant
                        m == g@,
                        m.wf(),
                        p < m.prods.len(),
                        lhs == m.prods[p as int].lhs,
                        rhs@ == m.prods[p as int].rhs,
                        m.has_symbols(rhs@),
                        nonterms == m.nonterms(),
                        k <= rhs@.len(),
                        set.capacity() == nonterms,
                        set@.contains(m.augmented()),
                        set@.contains(lhs),
                        forall|a: u32| #[trigger] set@.contains(a) ==> reachable(m, a),
                        set.count() >= at_start.count(),
                        changed ==> set.count() > at_start.count(),
                        !changed ==> forall|q: int|
                            0 <= q < p ==> #[trigger] reach_closed_for(set@, m, q),
                        !changed ==> forall|i: int| 0 <= i < k ==> holds(set@, #[trigger] rhs@[i]),
                    decreases rhs.len() - k,
                {
                    match rhs[k] {
                        Symbol::Term(_) => {},
                        Symbol::Nonterm(b) => {
                            proof {
                                assert(m.has_symbol(rhs@[k as int]));
                                lemma_reach_intro(m, p as int, k as int, b);
                            }
                            let ghost before = set@;
                            let added = set.insert(b);
                            if added {
                                changed = true;
                            } else {
                                proof {
                                    assert(set@ =~= before);
                                }
                            }
                        },
                    }
                    k = k + 1;
                }
            }
            p = p + 1;
        }
        proof {
            set.lemma_bounds();
            at_start.lemma_bounds();
        }
        going = changed;
    }
    proof {
        assert forall|a: u32| reachable(m, a) implies set@.contains(a) by {
            let h = choose|h: nat| reach_within(m, a, h);
            lemma_reach_complete(m, set@, a, h);
        }
    }
    set
}

/// The productive nonterminals of `g`.
pub fn productive_set(g: &Grammar) -> (set: IndexSet)
    ensures
        set.capacity() == g@.nonterms(),
        forall|a: u32| set@.contains(a) <==> productive(g@, Symbol::Nonterm(a)),
{
    let nonterms = g.nonterms_len();
    let n = g.prods_len();
    let ghost m = g@;
    let mut set = IndexSet::new(nonterms);
    let mut going = true;
    while going
        invariant
            m == g@,
            m.wf(),
            n == m.prods.len(),
            nonterms == m.nonterms(),
            set.capacity() == nonterms,
            forall|a: u32| #[trigger] set@.contains(a) ==> productive(m, Symbol::Nonterm(a)),
            !going ==> forall|p: int|
                0 <= p < m.prods.len() ==> #[trigger] productive_closed_for(set@, m, p),
        decreases set.vacancy() + if going { 1nat } else { 0nat },
    {
        let ghost at_start = set;
        let mut changed = false;
        let mut p: u32 = 0;
        while p < n
            invariant
                m == g@,
                m.wf(),
                n == m.prods.len(),
                nonterms == m.nonterms(),
                p <= n,
                set.capacity() == nonterms,
                forall|a: u32| #[trigger] set@.contains(a) ==> productive(m, Symbol::Nonterm(a)),
                set.count() >= at_start.count(),
                changed ==> set.count() > at_start.count(),
                set.capacity() == at_start.capacity(),
                !changed ==> forall|q: int|
                    0 <= q < p ==> #[trigger] productive_closed_for(set@, m, q),
            decreases n - p,
        {
            let lhs = g.prod_lhs(p);
            let rhs = g.prod_rhs(p);
            proof {
                m.lemma_prod_in_range(p as int);
            }
            let all = symbols_held(&set, rhs);
            if all {
                proof {
                    assert forall|k: int| 0 <= k < rhs@.len() implies productive(
                        m,
                        #[trigger] rhs@[k],
                    ) by {
                        match rhs@[k] {
                            Symbol::Term(_) => {
                                assert(productive_within(m, rhs@[k], 0));
                            },
                            Symbol::Nonterm(b) => {
                                assert(holds(set@, rhs@[k]));
                            },
                        }
                    }
                    lemma_productive_intro(m, p as int);
                }
                let ghost before = set@;
                let added = set.insert(lhs);
                if added {
                    changed = true;
                } else {
                    proof {
                        assert(set@ =~= before);
                    }
                }
            }
            p = p + 1;
        }
        proof {
            set.lemma_bounds();
            at_start.lemma_bounds();
        }
        going = changed;
    }
    proof {
        assert forall|a: u32| productive(m, Symbol::Nonterm(a)) implies set@.contains(a) by {
            let s = Symbol::Nonterm(a);
            let h = choose|h: nat| productive_within(m, s, h);
            lemma_productive_complete(m, set@, s, h);
        }
    }
    set
}

/// Whether `set` holds every symbol of `form`.
pub fn symbols_held(set: &IndexSet, form: &Vec<Symbol>) -> (r: bool)
    ensures
        r == holds_all(set@, form@),
{
    let mut k: usize = 0;
    while k < form.len()
        invariant
            k <= form@.len(),
            forall|i: int| 0 <= i < k ==> holds(set@, #[trigger] form@[i]),
        decreases form.len() - k,
    {
        match form[k] {
            Symbol::Term(_) => {},
            Symbol::Nonterm(b) => {
                if !set.contains(b) {
                    proof {
                        assert(!holds(set@, form@[k as int]));
                    }
                    return false;
                }
            },
        }
        k = k + 1;
    }
    true
}

} // verus!
