//! The least number of productions that it takes to derive a string of
//! terminals from each nonterminal, and a production that takes so few.

use vstd::prelude::*;
use crate::grammar::Grammar;
use crate::reach::{
    holds, lemma_productive_complete, lemma_productive_intro, productive, productive_closed_for,
    productive_within,
};
use crate::symbol::{GrammarModel, Symbol};

verus! {

/// `x`, or the greatest 64-bit number where `x` is greater.
pub open spec fn sat(x: nat) -> u64 {
    if x >= u64::MAX {
        u64::MAX
    } else {
        x as u64
    }
}

/// The sum of `a` and `b`, or the greatest 64-bit number where the sum is
/// greater.
pub fn sat_add(a: u64, b: u64) -> (r: u64)
    ensures
        r == sat((a + b) as nat),
{
    if a > u64::MAX - b {
        u64::MAX
    } else {
        a + b
    }
}

/// The cost of symbol `s`: nothing for a terminal, the entry of the table
/// for a nonterminal.
pub open spec fn cost_of(costs: Seq<Option<u64>>, s: Symbol) -> Option<u64> {
    match s {
        Symbol::Term(_) => Some(0),
        Symbol::Nonterm(b) => if (b as int) < costs.len() {
            costs[b as int]
        } else {
            None
        },
    }
}

/// Every symbol of `form` has a cost.
pub open spec fn all_costed(costs: Seq<Option<u64>>, form: Seq<Symbol>) -> bool {
    forall|k: int| 0 <= k < form.len() ==> cost_of(costs, #[trigger] form[k]) is Some
}

/// The cost of a symbol as a number: nothing where it has none.
pub open spec fn cost_value(costs: Seq<Option<u64>>, s: Symbol) -> nat {
    match cost_of(costs, s) {
        Some(c) => c as nat,
        None => 0,
    }
}

/// The sum of the costs of the symbols of `form`.
pub open spec fn total_cost(costs: Seq<Option<u64>>, form: Seq<Symbol>) -> nat
    decreases form.len(),
{
    if form.len() == 0 {
        0
    } else {
        total_cost(costs, form.drop_last()) + cost_value(costs, form.last())
    }
}

/// The size of symbol `s`: nothing for a terminal, the entry of `sizes`
/// for a nonterminal.
pub open spec fn size_of(sizes: Seq<nat>, s: Symbol) -> nat {
    match s {
        Symbol::Term(_) => 0,
        Symbol::Nonterm(b) => if (b as int) < sizes.len() {
            sizes[b as int]
        } else {
            0
        },
    }
}

/// The sum of the sizes of the symbols of `form`.
pub open spec fn total_size(sizes: Seq<nat>, form: Seq<Symbol>) -> nat
    decreases form.len(),
{
    if form.len() == 0 {
        0
    } else {
        total_size(sizes, form.drop_last()) + size_of(sizes, form.last())
    }
}

/// Where no size grows, no sum of sizes grows.
pub proof fn lemma_total_size_mono(small: Seq<nat>, big: Seq<nat>, form: Seq<Symbol>)
    requires
        forall|k: int| 0 <= k < form.len() ==> size_of(small, #[trigger] form[k]) <= size_of(big, form[k]),
    ensures
        total_size(small, form) <= total_size(big, form),
    decreases form.len(),
{
    if form.len() > 0 {
        let front = form.drop_last();
        assert forall|k: int| 0 <= k < front.len() implies size_of(small, #[trigger] front[k])
            <= size_of(big, front[k]) by {
            assert(front[k] == form[k]);
        }
        lemma_total_size_mono(small, big, front);
        assert(form.last() == form[form.len() - 1]);
    }
}

/// The costs of the symbols of `form` are their sizes, cut off at the
/// greatest 64-bit number.
pub open spec fn costs_are_sizes(costs: Seq<Option<u64>>, sizes: Seq<nat>, form: Seq<Symbol>) -> bool {
    forall|k: int|
        0 <= k < form.len() ==> cost_of(costs, #[trigger] form[k]) == Some(
            sat(size_of(sizes, form[k])),
        )
}

/// Where the costs are the sizes cut off, the sum of the costs cut off
/// is the sum of the sizes cut off.
pub proof fn lemma_cost_is_size(costs: Seq<Option<u64>>, sizes: Seq<nat>, form: Seq<Symbol>)
    requires
        costs_are_sizes(costs, sizes, form),
    ensures
        sat(total_cost(costs, form)) == sat(total_size(sizes, form)),
        total_cost(costs, form) <= total_size(sizes, form),
    decreases form.len(),
{
    if form.len() > 0 {
        let front = form.drop_last();
        assert forall|k: int| 0 <= k < front.len() implies cost_of(costs, #[trigger] front[k])
            == Some(sat(size_of(sizes, front[k]))) by {
            assert(front[k] == form[k]);
        }
        lemma_cost_is_size(costs, sizes, front);
        assert(form.last() == form[form.len() - 1]);
        assert(cost_of(costs, form.last()) == Some(sat(size_of(sizes, form.last()))));
    }
}

/// The sum of the costs of the symbols of `form`, cut off at the greatest
/// 64-bit number; nothing where a symbol has no cost.
pub fn form_cost(costs: &Vec<Option<u64>>, form: &Vec<Symbol>) -> (r: Option<u64>)
    ensures
        r is Some <==> all_costed(costs@, form@),
        r matches Some(c) ==> c == sat(total_cost(costs@, form@)),
{
    let mut acc: u64 = 0;
    let mut k: usize = 0;
    while k < form.len()
        invariant
            k <= form@.len(),
            all_costed(costs@, form@.take(k as int)),
            acc == sat(total_cost(costs@, form@.take(k as int))),
        decreases form.len() - k,
    {
        let ghost front = form@.take(k as int);
        let ghost next = form@.take(k + 1);
        proof {
            assert(next.drop_last() =~= front);
            assert(next.last() == form@[k as int]);
        }
        let c: Option<u64> = match form[k] {
            Symbol::Term(_) => Some(0),
            Symbol::Nonterm(b) => {
                if (b as usize) < costs.len() {
                    costs[b as usize]
                } else {
                    None
                }
            },
        };
        match c {
            None => {
                proof {
                    assert(cost_of(costs@, form@[k as int]) is None);
                }
                return None;
            },
            Some(v) => {
                acc = sat_add(acc, v);
                proof {
                    assert forall|i: int| 0 <= i < next.len() implies cost_of(
                        costs@,
                        #[trigger] next[i],
                    ) is Some by {
                        if i < k {
                            assert(front[i] == next[i]);
                        }
                    }
                }
            },
        }
        k = k + 1;
    }
    proof {
        assert(form@.take(form@.len() as int) =~= form@);
    }
    Some(acc)
}

/// What an entry of the table weighs: its cost, or more than any cost
/// where it has none.
pub open spec fn weight(c: Option<u64>) -> nat {
    match c {
        Some(v) => v as nat,
        None => (u64::MAX + 1) as nat,
    }
}

/// What the whole table weighs.
pub open spec fn weight_sum(costs: Seq<Option<u64>>) -> nat
    decreases costs.len(),
{
    if costs.len() == 0 {
        0
    } else {
        weight_sum(costs.drop_last()) + weight(costs.last())
    }
}

/// Replacing an entry by a lighter one makes the table lighter by the
/// difference.
pub proof fn lemma_weight_update(costs: Seq<Option<u64>>, a: int, c: Option<u64>)
    requires
        0 <= a < costs.len(),
        weight(c) <= weight(costs[a]),
    ensures
        weight_sum(costs.update(a, c)) + (weight(costs[a]) - weight(c)) == weight_sum(costs),
    decreases costs.len(),
{
    let u = costs.update(a, c);
    if a == costs.len() - 1 {
        assert(u.drop_last() =~= costs.drop_last());
    } else {
        lemma_weight_update(costs.drop_last(), a, c);
        assert(u.drop_last() =~= costs.drop_last().update(a, c));
    }
}

/// Entry `a` of the table is in order: where it has a cost, its production
/// belongs to `a`, every symbol of that production has a cost, its size is
/// more than the sizes of those symbols together, and its cost is its size
/// cut off.
pub open spec fn good_entry(
    m: GrammarModel,
    costs: Seq<Option<u64>>,
    best: Seq<u32>,
    sizes: Seq<nat>,
    a: int,
) -> bool {
    costs[a] matches Some(c) ==> {
        let p = best[a] as int;
        &&& 0 <= p < m.prods.len()
        &&& m.prods[p].lhs == a
        &&& all_costed(costs, m.prods[p].rhs)
        &&& sizes[a] >= 1 + total_size(sizes, m.prods[p].rhs)
        &&& c == sat(sizes[a])
        &&& productive(m, Symbol::Nonterm(a as u32))
    }
}

/// The table is in order.
pub open spec fn table_ok(
    m: GrammarModel,
    costs: Seq<Option<u64>>,
    best: Seq<u32>,
    sizes: Seq<nat>,
) -> bool {
    &&& costs.len() == m.nonterms()
    &&& best.len() == m.nonterms()
    &&& sizes.len() == m.nonterms()
    &&& forall|a: int| 0 <= a < costs.len() ==> #[trigger] good_entry(m, costs, best, sizes, a)
}

/// Production `p` cannot lower the cost of its nonterminal.
pub open spec fn cost_closed_for(costs: Seq<Option<u64>>, m: GrammarModel, p: int) -> bool {
    all_costed(costs, m.prods[p].rhs) ==> (costs[m.prods[p].lhs as int] matches Some(c) && c <= sat(
        1 + total_cost(costs, m.prods[p].rhs),
    ))
}

/// No production can lower a cost.
pub open spec fn cost_closed(costs: Seq<Option<u64>>, m: GrammarModel) -> bool {
    forall|p: int| 0 <= p < m.prods.len() ==> #[trigger] cost_closed_for(costs, m, p)
}

/// In a table in order the symbols with a cost have their size, cut off,
/// as their cost.
pub proof fn lemma_costed_form(
    m: GrammarModel,
    costs: Seq<Option<u64>>,
    best: Seq<u32>,
    sizes: Seq<nat>,
    form: Seq<Symbol>,
)
    requires
        table_ok(m, costs, best, sizes),
        all_costed(costs, form),
    ensures
        costs_are_sizes(costs, sizes, form),
        all_productive_form(m, form),
{
    assert forall|k: int| 0 <= k < form.len() implies cost_of(costs, #[trigger] form[k]) == Some(
        sat(size_of(sizes, form[k])),
    ) && productive(m, form[k]) by {
        assert(cost_of(costs, form[k]) is Some);
        match form[k] {
            Symbol::Term(_) => {
                assert(productive_within(m, form[k], 0));
            },
            Symbol::Nonterm(b) => {
                assert(good_entry(m, costs, best, sizes, b as int));
            },
        }
    }
}

/// Every symbol of `form` is productive.
pub open spec fn all_productive_form(m: GrammarModel, form: Seq<Symbol>) -> bool {
    forall|k: int| 0 <= k < form.len() ==> productive(m, #[trigger] form[k])
}

/// Lets production `p` lower the cost of its nonterminal if it can; the
/// result says whether it did, and holds the sizes that go with the costs.
fn relax(
    g: &Grammar,
    p: u32,
    costs: &mut Vec<Option<u64>>,
    best: &mut Vec<u32>,
    sizes: Ghost<Seq<nat>>,
) -> (r: (bool, Ghost<Seq<nat>>))
    requires
        p < g@.prods.len(),
        table_ok(g@, old(costs)@, old(best)@, sizes@),
    ensures
        table_ok(g@, final(costs)@, final(best)@, r.1@),
        weight_sum(final(costs)@) <= weight_sum(old(costs)@),
        r.0 ==> weight_sum(final(costs)@) < weight_sum(old(costs)@),
        !r.0 ==> final(costs)@ == old(costs)@ && final(best)@ == old(best)@ && r.1@ == sizes@
            && cost_closed_for(final(costs)@, g@, p as int),
{
    let ghost m = g@;
    let lhs = g.prod_lhs(p);
    let rhs = g.prod_rhs(p);
    proof {
        m.lemma_prod_in_range(p as int);
    }
    match form_cost(costs, rhs) {
        None => (false, sizes),
        Some(c) => {
            let c1 = sat_add(c, 1);
            let lower = match costs[lhs as usize] {
                None => true,
                Some(c0) => c1 < c0,
            };
            if lower {
                let ghost was = costs@;
                let ghost was_best = best@;
                let ghost n1: nat = 1 + total_size(sizes@, rhs@);
                let ghost now_sizes = sizes@.update(lhs as int, n1);
                proof {
                    lemma_costed_form(m, was, was_best, sizes@, rhs@);
                    lemma_cost_is_size(was, sizes@, rhs@);
                    lemma_weight_update(was, lhs as int, Some(c1));
                    assert(good_entry(m, was, was_best, sizes@, lhs as int));
                    assert(c1 == sat(n1));
                    assert(all_productive_form(m, rhs@));
                    lemma_productive_intro(m, p as int);
                }
                costs.set(lhs as usize, Some(c1));
                best.set(lhs as usize, p);
                proof {
                    let now = costs@;
                    let now_best = best@;
                    assert forall|b: int| 0 <= b < now_sizes.len() implies #[trigger] now_sizes[b]
                        <= sizes@[b] || was[b] is None by {
                        if b == lhs as int && was[b] is Some {
                            assert(n1 < sizes@[b]);
                        }
                    }
                    assert forall|a: int| 0 <= a < now.len() implies #[trigger] good_entry(
                        m,
                        now,
                        now_best,
                        now_sizes,
                        a,
                    ) by {
                        if now[a] is Some {
                            let q = now_best[a] as int;
                            if a == lhs as int {
                                assert(q == p);
                            } else {
                                assert(good_entry(m, was, was_best, sizes@, a));
                            }
                            let form = m.prods[q].rhs;
                            assert(all_costed(was, form));
                            assert forall|k: int| 0 <= k < form.len() implies cost_of(
                                now,
                                #[trigger] form[k],
                            ) is Some && size_of(now_sizes, form[k]) <= size_of(sizes@, form[k]) by {
                                assert(cost_of(was, form[k]) is Some);
                                match form[k] {
                                    Symbol::Term(_) => {},
                                    Symbol::Nonterm(b) => {
                                        assert(now_sizes[b as int] <= sizes@[b as int]
                                            || was[b as int] is None);
                                    },
                                }
                            }
                            lemma_total_size_mono(now_sizes, sizes@, form);
                        }
                    }
                }
                (true, Ghost(now_sizes))
            } else {
                (false, sizes)
            }
        },
    }
}

/// Lets every production lower a cost once; the result says whether one
/// did, and holds the sizes that go with the costs.
fn pass(g: &Grammar, costs: &mut Vec<Option<u64>>, best: &mut Vec<u32>, sizes: Ghost<Seq<nat>>) -> (r:
    (bool, Ghost<Seq<nat>>))
    requires
        table_ok(g@, old(costs)@, old(best)@, sizes@),
    ensures
        table_ok(g@, final(costs)@, final(best)@, r.1@),
        weight_sum(final(costs)@) <= weight_sum(old(costs)@),
        r.0 ==> weight_sum(final(costs)@) < weight_sum(old(costs)@),
        !r.0 ==> cost_closed(final(costs)@, g@),
{
    let n = g.prods_len();
    let mut changed = false;
    let mut now: Ghost<Seq<nat>> = sizes;
    let mut p: u32 = 0;
    while p < n
        invariant
            p <= n,
            n == g@.prods.len(),
            table_ok(g@, costs@, best@, now@),
            weight_sum(costs@) <= weight_sum(old(costs)@),
            changed ==> weight_sum(costs@) < weight_sum(old(costs)@),
            !changed ==> forall|q: int| 0 <= q < p ==> #[trigger] cost_closed_for(costs@, g@, q),
        decreases n - p,
    {
        let step = relax(g, p, costs, best, now);
        if step.0 {
            changed = true;
        }
        now = step.1;
        p = p + 1;
    }
    (changed, now)
}

/// The sum of a sequence of numbers.
pub open spec fn sum(parts: Seq<nat>) -> nat
    decreases parts.len(),
{
    if parts.len() == 0 {
        0
    } else {
        sum(parts.drop_last()) + parts.last()
    }
}

/// A derivation tree begins with production `p`, and the subtrees of its
/// symbols hold `parts` productions each.
pub open spec fn begins(p: int, parts: Seq<nat>) -> bool {
    true
}

/// `s` derives a string of terminals by a derivation tree of exactly `c`
/// productions and of height at most `n`.
pub open spec fn derives_at_cost(m: GrammarModel, s: Symbol, c: nat, n: nat) -> bool
    decreases n,
{
    match s {
        Symbol::Term(_) => c == 0,
        Symbol::Nonterm(a) => if n == 0 {
            false
        } else {
            exists|p: int, parts: Seq<nat>|
                #[trigger] begins(p, parts) && 0 <= p < m.prods.len() && m.prods[p].lhs == a
                    && parts.len() == m.prods[p].rhs.len() && c == 1 + sum(parts) && forall|k: int|
                    0 <= k < parts.len() ==> derives_at_cost(
                        m,
                        m.prods[p].rhs[k],
                        #[trigger] parts[k],
                        (n - 1) as nat,
                    )
        },
    }
}

/// `s` derives a string of terminals by a derivation tree of exactly `c`
/// productions.
pub open spec fn attainable(m: GrammarModel, s: Symbol, c: nat) -> bool {
    exists|n: nat| derives_at_cost(m, s, c, n)
}

/// `c` is the least number of productions in a derivation tree of a
/// string of terminals from `s`.
pub open spec fn least_cost(m: GrammarModel, s: Symbol, c: nat) -> bool {
    attainable(m, s, c) && forall|d: nat| #[trigger] attainable(m, s, d) ==> c <= d
}

/// `v` is the least number of productions in a derivation tree of a
/// string of terminals from `s`, cut off at the greatest 64-bit number.
pub open spec fn is_min_cost(m: GrammarModel, s: Symbol, v: u64) -> bool {
    exists|c: nat| #[trigger] least_cost(m, s, c) && v == sat(c)
}

/// The production and the subtrees of a tree from a nonterminal.
pub proof fn lemma_tree_witness(m: GrammarModel, a: u32, c: nat, n: nat) -> (w: (int, Seq<nat>))
    requires
        derives_at_cost(m, Symbol::Nonterm(a), c, n),
    ensures
        n > 0,
        0 <= w.0 < m.prods.len(),
        m.prods[w.0].lhs == a,
        w.1.len() == m.prods[w.0].rhs.len(),
        c == 1 + sum(w.1),
        forall|k: int|
            0 <= k < w.1.len() ==> derives_at_cost(
                m,
                m.prods[w.0].rhs[k],
                #[trigger] w.1[k],
                (n - 1) as nat,
            ),
{
    choose|p: int, parts: Seq<nat>|
        #[trigger] begins(p, parts) && 0 <= p < m.prods.len() && m.prods[p].lhs == a && parts.len()
            == m.prods[p].rhs.len() && c == 1 + sum(parts) && forall|k: int|
            0 <= k < parts.len() ==> derives_at_cost(
                m,
                m.prods[p].rhs[k],
                #[trigger] parts[k],
                (n - 1) as nat,
            )
}

/// A tree of some height is a tree of every greater height.
pub proof fn lemma_tree_mono(m: GrammarModel, s: Symbol, c: nat, n: nat, n2: nat)
    requires
        derives_at_cost(m, s, c, n),
        n <= n2,
    ensures
        derives_at_cost(m, s, c, n2),
    decreases n,
{
    match s {
        Symbol::Term(_) => {},
        Symbol::Nonterm(a) => {
            let (p, parts) = lemma_tree_witness(m, a, c, n);
            assert forall|k: int| 0 <= k < parts.len() implies derives_at_cost(
                m,
                m.prods[p].rhs[k],
                #[trigger] parts[k],
                (n2 - 1) as nat,
            ) by {
                lemma_tree_mono(m, m.prods[p].rhs[k], parts[k], (n - 1) as nat, (n2 - 1) as nat);
            }
            assert(begins(p, parts));
        },
    }
}

/// Trees for the symbols of a form have one common height.
pub proof fn lemma_tree_height(m: GrammarModel, form: Seq<Symbol>, parts: Seq<nat>) -> (n: nat)
    requires
        parts.len() == form.len(),
        forall|k: int| 0 <= k < form.len() ==> attainable(m, form[k], #[trigger] parts[k]),
    ensures
        forall|k: int| 0 <= k < form.len() ==> derives_at_cost(m, form[k], #[trigger] parts[k], n),
    decreases form.len(),
{
    if form.len() == 0 {
        0
    } else {
        let front = form.drop_last();
        let fewer = parts.drop_last();
        assert forall|k: int| 0 <= k < front.len() implies attainable(
            m,
            front[k],
            #[trigger] fewer[k],
        ) by {
            assert(front[k] == form[k]);
            assert(fewer[k] == parts[k]);
        }
        let n1 = lemma_tree_height(m, front, fewer);
        let tail = form[form.len() - 1];
        let cost = parts[parts.len() - 1];
        assert(attainable(m, tail, cost));
        let n2 = choose|n2: nat| derives_at_cost(m, tail, cost, n2);
        let n = if n1 >= n2 { n1 } else { n2 };
        assert forall|k: int| 0 <= k < form.len() implies derives_at_cost(
            m,
            form[k],
            #[trigger] parts[k],
            n,
        ) by {
            if k < front.len() {
                assert(front[k] == form[k]);
                assert(fewer[k] == parts[k]);
                lemma_tree_mono(m, form[k], parts[k], n1, n);
            } else {
                lemma_tree_mono(m, form[k], parts[k], n2, n);
            }
        }
        n
    }
}

/// A production over trees for its symbols is a tree for its nonterminal.
pub proof fn lemma_tree_intro(m: GrammarModel, p: int, parts: Seq<nat>)
    requires
        0 <= p < m.prods.len(),
        parts.len() == m.prods[p].rhs.len(),
        forall|k: int|
            0 <= k < parts.len() ==> attainable(m, m.prods[p].rhs[k], #[trigger] parts[k]),
    ensures
        attainable(m, Symbol::Nonterm(m.prods[p].lhs), 1 + sum(parts)),
{
    let n = lemma_tree_height(m, m.prods[p].rhs, parts);
    assert(begins(p, parts));
    assert(derives_at_cost(m, Symbol::Nonterm(m.prods[p].lhs), 1 + sum(parts), n + 1));
}

/// Where each cost is at most its part, the costs together are at most
/// the parts together.
pub proof fn lemma_costs_below_parts(costs: Seq<Option<u64>>, form: Seq<Symbol>, parts: Seq<nat>)
    requires
        parts.len() == form.len(),
        forall|k: int| 0 <= k < form.len() ==> cost_value(costs, form[k]) <= #[trigger] parts[k],
    ensures
        total_cost(costs, form) <= sum(parts),
    decreases form.len(),
{
    if form.len() > 0 {
        let front = form.drop_last();
        let fewer = parts.drop_last();
        assert forall|k: int| 0 <= k < front.len() implies cost_value(costs, front[k])
            <= #[trigger] fewer[k] by {
            assert(front[k] == form[k]);
            assert(fewer[k] == parts[k]);
        }
        lemma_costs_below_parts(costs, front, fewer);
        assert(cost_value(costs, form[form.len() - 1]) <= parts[parts.len() - 1]);
    }
}

/// Where each part is at most its size, the parts together are at most
/// the sizes together.
pub proof fn lemma_parts_below_sizes(sizes: Seq<nat>, form: Seq<Symbol>, parts: Seq<nat>)
    requires
        parts.len() == form.len(),
        forall|k: int| 0 <= k < form.len() ==> #[trigger] parts[k] <= size_of(sizes, form[k]),
    ensures
        sum(parts) <= total_size(sizes, form),
    decreases form.len(),
{
    if form.len() > 0 {
        let front = form.drop_last();
        let fewer = parts.drop_last();
        assert forall|k: int| 0 <= k < front.len() implies #[trigger] fewer[k] <= size_of(
            sizes,
            front[k],
        ) by {
            assert(front[k] == form[k]);
            assert(fewer[k] == parts[k]);
        }
        lemma_parts_below_sizes(sizes, front, fewer);
        assert(parts[parts.len() - 1] <= size_of(sizes, form[form.len() - 1]));
    }
}

/// No symbol of a form is greater than the form.
pub proof fn lemma_size_in_total(sizes: Seq<nat>, form: Seq<Symbol>, k: int)
    requires
        0 <= k < form.len(),
    ensures
        size_of(sizes, form[k]) <= total_size(sizes, form),
    decreases form.len(),
{
    if k < form.len() - 1 {
        lemma_size_in_total(sizes, form.drop_last(), k);
        assert(form.drop_last()[k] == form[k]);
    } else {
        assert(form.last() == form[k]);
    }
}

/// Where no production can lower a cost, no tree has fewer productions
/// than the cost of its symbol.
pub proof fn lemma_cost_is_lower_bound(
    m: GrammarModel,
    costs: Seq<Option<u64>>,
    s: Symbol,
    c: nat,
    n: nat,
)
    requires
        m.wf(),
        costs.len() == m.nonterms(),
        cost_closed(costs, m),
        derives_at_cost(m, s, c, n),
    ensures
        cost_of(costs, s) matches Some(v) && v <= sat(c),
    decreases n,
{
    match s {
        Symbol::Term(_) => {},
        Symbol::Nonterm(a) => {
            let (p, parts) = lemma_tree_witness(m, a, c, n);
            let rhs = m.prods[p].rhs;
            m.lemma_prod_in_range(p);
            assert forall|k: int| 0 <= k < rhs.len() implies cost_of(costs, #[trigger] rhs[k]) is Some
                && cost_value(costs, rhs[k]) <= parts[k] by {
                assert(derives_at_cost(m, rhs[k], parts[k], (n - 1) as nat));
                lemma_cost_is_lower_bound(m, costs, rhs[k], parts[k], (n - 1) as nat);
            }
            assert forall|k: int| 0 <= k < rhs.len() implies cost_value(costs, rhs[k])
                <= #[trigger] parts[k] by {
                assert(cost_of(costs, rhs[k]) is Some);
            }
            lemma_costs_below_parts(costs, rhs, parts);
            assert(cost_closed_for(costs, m, p));
        },
    }
}

/// The number of productions of a tree for `s` that is no greater than
/// the size of `s`.
pub open spec fn attained(m: GrammarModel, sizes: Seq<nat>, s: Symbol) -> nat {
    choose|c: nat| attainable(m, s, c) && c <= size_of(sizes, s)
}

/// In a table in order every nonterminal with a cost has a tree of no
/// more productions than its size.
pub proof fn lemma_size_is_attained(
    m: GrammarModel,
    costs: Seq<Option<u64>>,
    best: Seq<u32>,
    sizes: Seq<nat>,
    a: u32,
) -> (c: nat)
    requires
        m.wf(),
        table_ok(m, costs, best, sizes),
        (a as int) < costs.len(),
        costs[a as int] is Some,
    ensures
        attainable(m, Symbol::Nonterm(a), c),
        c <= sizes[a as int],
    decreases sizes[a as int],
{
    assert(good_entry(m, costs, best, sizes, a as int));
    let p = best[a as int] as int;
    let rhs = m.prods[p].rhs;
    let parts = Seq::new(rhs.len(), |k: int| attained(m, sizes, rhs[k]));
    assert forall|k: int| 0 <= k < rhs.len() implies attainable(m, rhs[k], #[trigger] parts[k])
        && parts[k] <= size_of(sizes, rhs[k]) by {
        assert(cost_of(costs, rhs[k]) is Some);
        match rhs[k] {
            Symbol::Term(_) => {
                assert(derives_at_cost(m, rhs[k], 0, 0));
                assert(attainable(m, rhs[k], 0) && 0 <= size_of(sizes, rhs[k]));
            },
            Symbol::Nonterm(b) => {
                lemma_size_in_total(sizes, rhs, k);
                let d = lemma_size_is_attained(m, costs, best, sizes, b);
                assert(attainable(m, rhs[k], d) && d <= size_of(sizes, rhs[k]));
            },
        }
    }
    assert forall|k: int| 0 <= k < rhs.len() implies attainable(m, rhs[k], #[trigger] parts[k]) by {}
    lemma_tree_intro(m, p, parts);
    assert forall|k: int| 0 <= k < rhs.len() implies #[trigger] parts[k] <= size_of(sizes, rhs[k]) by {
        assert(attainable(m, rhs[k], parts[k]) && parts[k] <= size_of(sizes, rhs[k]));
    }
    lemma_parts_below_sizes(sizes, rhs, parts);
    1 + sum(parts)
}

/// Among the trees for `s` there is one of fewest productions.
pub proof fn lemma_least_exists(m: GrammarModel, s: Symbol, c: nat) -> (l: nat)
    requires
        attainable(m, s, c),
    ensures
        least_cost(m, s, l),
        l <= c,
    decreases c,
{
    if exists|d: nat| d < c && #[trigger] attainable(m, s, d) {
        let d = choose|d: nat| d < c && #[trigger] attainable(m, s, d);
        lemma_least_exists(m, s, d)
    } else {
        c
    }
}

/// For each nonterminal of a grammar the least number of productions that
/// derive a string of terminals from it, and a production to begin with.
pub struct CostTable {
    costs: Vec<Option<u64>>,
    best: Vec<u32>,
    sizes: Ghost<Seq<nat>>,
    model: Ghost<GrammarModel>,
}

impl CostTable {
    /// The grammar the table was computed for.
    pub closed spec fn grammar(&self) -> GrammarModel {
        self.model@
    }

    /// The costs: one entry per nonterminal.
    pub closed spec fn costs(&self) -> Seq<Option<u64>> {
        self.costs@
    }

    /// The production to begin with, per nonterminal.
    pub closed spec fn best(&self) -> Seq<u32> {
        self.best@
    }

    /// The number of productions in the derivation that begins with the
    /// production of each nonterminal and goes on in the same way.
    pub closed spec fn sizes(&self) -> Seq<nat> {
        self.sizes@
    }

    #[verifier::type_invariant]
    closed spec fn inv(&self) -> bool {
        &&& self.model@.wf()
        &&& table_ok(self.model@, self.costs@, self.best@, self.sizes@)
        &&& cost_closed(self.costs@, self.model@)
    }

    /// Computes the costs of `g` by lowering them until none can be
    /// lowered.
    pub fn new(g: &Grammar) -> (t: CostTable)
        ensures
            t.grammar() == g@,
            t.in_order(),
    {
        let ghost m = g@;
        let nonterms = g.nonterms_len();
        let mut costs: Vec<Option<u64>> = Vec::new();
        let mut best: Vec<u32> = Vec::new();
        let mut a: u32 = 0;
        while a < nonterms
            invariant
                a <= nonterms,
                costs@.len() == a,
                best@.len() == a,
                forall|b: int| 0 <= b < a ==> (#[trigger] costs@[b]) is None,
            decreases nonterms - a,
        {
            costs.push(None);
            best.push(0);
            a = a + 1;
        }
        let mut sizes: Ghost<Seq<nat>> = Ghost(Seq::new(nonterms as nat, |i: int| 0nat));
        let mut going = true;
        while going
            invariant
                m == g@,
                m.wf(),
                table_ok(m, costs@, best@, sizes@),
                !going ==> cost_closed(costs@, m),
            decreases weight_sum(costs@) + if going { 1nat } else { 0nat },
        {
            let step = pass(g, &mut costs, &mut best, sizes);
            going = step.0;
            sizes = step.1;
        }
        CostTable { costs, best, sizes, model: Ghost(m) }
    }

    /// The least number of productions that derive a string of terminals
    /// from nonterminal `a`, cut off at the greatest 64-bit number;
    /// nothing where `a` derives no such string.
    pub fn min_cost(&self, a: u32) -> (r: Option<u64>)
        requires
            a < self.grammar().nonterms(),
        ensures
            r == self.costs()[a as int],
            r is Some <==> productive(self.grammar(), Symbol::Nonterm(a)),
            r matches Some(v) ==> is_min_cost(self.grammar(), Symbol::Nonterm(a), v),
            self.in_order(),
    {
        proof {
            use_type_invariant(self);
            self.lemma_costed_is_productive(a);
            if self.costs()[a as int] is Some {
                self.lemma_cost_is_least(a);
            }
        }
        self.costs[a as usize]
    }

    /// The number of nonterminals of the grammar.
    pub fn len(&self) -> (n: usize)
        ensures
            n == self.grammar().nonterms(),
            self.in_order(),
    {
        proof {
            use_type_invariant(self);
        }
        self.costs.len()
    }

    /// The production that a shortest derivation from nonterminal `a`
    /// begins with, where `a` has a cost: a production of `a` whose
    /// symbols all have a cost, and whose cost is the cost of `a`.
    pub fn best_prod(&self, a: u32) -> (p: u32)
        requires
            a < self.grammar().nonterms(),
        ensures
            p == self.best()[a as int],
            self.costs()[a as int] matches Some(c) ==> {
                let m = self.grammar();
                &&& (p as int) < m.prods.len()
                &&& m.prods[p as int].lhs == a
                &&& all_costed(self.costs(), m.prods[p as int].rhs)
                &&& c == sat(1 + total_cost(self.costs(), m.prods[p as int].rhs))
            },
            self.in_order(),
    {
        proof {
            use_type_invariant(self);
            if self.costs@[a as int] is Some {
                let m = self.model@;
                let q = self.best@[a as int] as int;
                assert(good_entry(m, self.costs@, self.best@, self.sizes@, a as int));
                assert(cost_closed_for(self.costs@, m, q));
                lemma_costed_form(m, self.costs@, self.best@, self.sizes@, m.prods[q].rhs);
                lemma_cost_is_size(self.costs@, self.sizes@, m.prods[q].rhs);
            }
        }
        self.best[a as usize]
    }

    /// The sum of the costs of the symbols of `form`, cut off at the
    /// greatest 64-bit number; nothing where a symbol has no cost.
    pub fn cost_of_form(&self, form: &Vec<Symbol>) -> (r: Option<u64>)
        ensures
            r is Some <==> all_costed(self.costs(), form@),
            r matches Some(c) ==> c == sat(total_cost(self.costs(), form@)),
            self.in_order(),
    {
        proof {
            use_type_invariant(self);
        }
        form_cost(&self.costs, form)
    }

    /// What holds of every table: its entries are in order, no production
    /// can lower a cost, and exactly the productive nonterminals have one.
    pub open spec fn in_order(&self) -> bool {
        &&& self.grammar().wf()
        &&& table_ok(self.grammar(), self.costs(), self.best(), self.sizes())
        &&& cost_closed(self.costs(), self.grammar())
    }

    /// The cost of a nonterminal is the least number of productions in a
    /// tree for it, cut off at the greatest 64-bit number.
    pub proof fn lemma_cost_is_least(&self, a: u32)
        requires
            self.in_order(),
            (a as nat) < self.grammar().nonterms(),
            self.costs()[a as int] is Some,
        ensures
            is_min_cost(self.grammar(), Symbol::Nonterm(a), self.costs()[a as int]->0),
            self.costs()[a as int]->0 == sat(self.sizes()[a as int]),
    {
        let m = self.grammar();
        let s = Symbol::Nonterm(a);
        assert(good_entry(m, self.costs(), self.best(), self.sizes(), a as int));
        let c = lemma_size_is_attained(m, self.costs(), self.best(), self.sizes(), a);
        let l = lemma_least_exists(m, s, c);
        let n = choose|n: nat| derives_at_cost(m, s, l, n);
        lemma_cost_is_lower_bound(m, self.costs(), s, l, n);
        assert(least_cost(m, s, l));
    }

    /// Exactly the productive nonterminals have a cost.
    pub proof fn lemma_costed_is_productive(&self, a: u32)
        requires
            self.in_order(),
            (a as nat) < self.grammar().nonterms(),
        ensures
            self.costs()[a as int] is Some <==> productive(self.grammar(), Symbol::Nonterm(a)),
    {
        let m = self.grammar();
        let costs = self.costs();
        let set = Set::new(|b: u32| (b as int) < costs.len() && costs[b as int] is Some);
        assert(good_entry(m, costs, self.best(), self.sizes(), a as int));
        assert forall|p: int| 0 <= p < m.prods.len() implies #[trigger] productive_closed_for(
            set,
            m,
            p,
        ) by {
            assert(cost_closed_for(costs, m, p));
            m.lemma_prod_in_range(p);
            let rhs = m.prods[p].rhs;
            if crate::reach::holds_all(set, rhs) {
                assert forall|k: int| 0 <= k < rhs.len() implies cost_of(costs, #[trigger] rhs[k]) is Some by {
                    assert(holds(set, rhs[k]));
                }
            }
        }
        if productive(m, Symbol::Nonterm(a)) {
            let s = Symbol::Nonterm(a);
            let h = choose|h: nat| productive_within(m, s, h);
            lemma_productive_complete(m, set, s, h);
        }
    }
}

} // verus!
