//! Derivations over sentential forms, and what FIRST, FOLLOW and
//! nullability mean in terms of them.

use vstd::prelude::*;
use crate::firsts::{
    all_nullable, all_nullable_within, first, first_within, lemma_common_height,
    lemma_first_intro, lemma_first_witness, lemma_nullable_intro, lemma_nullable_witness,
    nullable, nullable_within, seq_first, seq_first_at,
};
use crate::follows::{
    follow, follow_within, lemma_follow_from_first, lemma_follow_from_parent,
    lemma_follow_witness, suffix,
};
use crate::symbol::{GrammarModel, Symbol};

verus! {

/// `b` comes from `a` by rewriting the nonterminal at position `i` with
/// production `p`.
pub open spec fn step_at(m: GrammarModel, a: Seq<Symbol>, b: Seq<Symbol>, i: int, p: int) -> bool {
    &&& 0 <= i < a.len()
    &&& 0 <= p < m.prods.len()
    &&& a[i] == Symbol::Nonterm(m.prods[p].lhs)
    &&& b =~= a.subrange(0, i) + m.prods[p].rhs + a.subrange(i + 1, a.len() as int)
}

/// `b` comes from `a` by one rewriting.
pub open spec fn step(m: GrammarModel, a: Seq<Symbol>, b: Seq<Symbol>) -> bool {
    exists|i: int, p: int| #[trigger] step_at(m, a, b, i, p)
}

/// `b` comes from `a` by exactly `n` rewritings.
pub open spec fn derives_in(m: GrammarModel, a: Seq<Symbol>, b: Seq<Symbol>, n: nat) -> bool
    decreases n,
{
    if n == 0 {
        a == b
    } else {
        exists|c: Seq<Symbol>| #[trigger] step(m, a, c) && derives_in(m, c, b, (n - 1) as nat)
    }
}

/// `b` is derivable from `a`.
pub open spec fn derives(m: GrammarModel, a: Seq<Symbol>, b: Seq<Symbol>) -> bool {
    exists|n: nat| derives_in(m, a, b, n)
}

/// The terminals `out` as a sentential form.
pub open spec fn terminals(out: Seq<u32>) -> Seq<Symbol> {
    Seq::new(out.len(), |i: int| Symbol::Term(out[i]))
}

/// The sentential form that consists of the one symbol `s`.
pub open spec fn unit(s: Symbol) -> Seq<Symbol> {
    seq![s]
}

/// Nonterminal `a` is reached from the augmented start through at most `n`
/// productions.
pub open spec fn reach_within(m: GrammarModel, a: u32, n: nat) -> bool
    decreases n,
{
    a == m.augmented() || if n == 0 {
        false
    } else {
        exists|p: int, i: int|
            0 <= p < m.prods.len() && 0 <= i < m.prods[p].rhs.len() && #[trigger] m.prods[p].rhs[i]
                == Symbol::Nonterm(a) && reach_within(m, m.prods[p].lhs, (n - 1) as nat)
    }
}

/// Nonterminal `a` is reachable: it is the augmented start, or it occurs
/// in a production of a reachable nonterminal.
pub open spec fn reachable(m: GrammarModel, a: u32) -> bool {
    exists|n: nat| reach_within(m, a, n)
}

/// The occurrence through which a nonterminal other than the augmented
/// start is reached within `n`.
pub proof fn lemma_reach_witness(m: GrammarModel, a: u32, n: nat) -> (w: (int, int))
    requires
        reach_within(m, a, n),
        a != m.augmented(),
    ensures
        n > 0,
        0 <= w.0 < m.prods.len(),
        0 <= w.1 < m.prods[w.0].rhs.len(),
        m.prods[w.0].rhs[w.1] == Symbol::Nonterm(a),
        reach_within(m, m.prods[w.0].lhs, (n - 1) as nat),
{
    choose|p: int, i: int|
        0 <= p < m.prods.len() && 0 <= i < m.prods[p].rhs.len() && #[trigger] m.prods[p].rhs[i]
            == Symbol::Nonterm(a) && reach_within(m, m.prods[p].lhs, (n - 1) as nat)
}

/// Every form is derivable from itself.
pub proof fn lemma_derives_refl(m: GrammarModel, a: Seq<Symbol>)
    ensures
        derives(m, a, a),
{
    assert(derives_in(m, a, a, 0));
}

/// Derivations compose, and their lengths add up.
pub proof fn lemma_derives_in_trans(
    m: GrammarModel,
    a: Seq<Symbol>,
    b: Seq<Symbol>,
    c: Seq<Symbol>,
    n1: nat,
    n2: nat,
)
    requires
        derives_in(m, a, b, n1),
        derives_in(m, b, c, n2),
    ensures
        derives_in(m, a, c, n1 + n2),
    decreases n1,
{
    if n1 > 0 {
        let x = choose|x: Seq<Symbol>| #[trigger] step(m, a, x) && derives_in(m, x, b, (n1 - 1) as nat);
        lemma_derives_in_trans(m, x, b, c, (n1 - 1) as nat, n2);
        assert(derives_in(m, x, c, ((n1 + n2) - 1) as nat));
    }
}

/// Derivations compose.
pub proof fn lemma_derives_trans(m: GrammarModel, a: Seq<Symbol>, b: Seq<Symbol>, c: Seq<Symbol>)
    requires
        derives(m, a, b),
        derives(m, b, c),
    ensures
        derives(m, a, c),
{
    let n1 = choose|n: nat| derives_in(m, a, b, n);
    let n2 = choose|n: nat| derives_in(m, b, c, n);
    lemma_derives_in_trans(m, a, b, c, n1, n2);
}

/// One rewriting is a derivation.
pub proof fn lemma_step_derives(m: GrammarModel, a: Seq<Symbol>, b: Seq<Symbol>, i: int, p: int)
    requires
        step_at(m, a, b, i, p),
    ensures
        derives(m, a, b),
{
    assert(step(m, a, b));
    assert(derives_in(m, b, b, 0));
    assert(derives_in(m, a, b, 1));
}

/// A nonterminal derives the right-hand side of each of its productions.
pub proof fn lemma_apply(m: GrammarModel, p: int)
    requires
        0 <= p < m.prods.len(),
    ensures
        derives(m, unit(Symbol::Nonterm(m.prods[p].lhs)), m.prods[p].rhs),
{
    let a = unit(Symbol::Nonterm(m.prods[p].lhs));
    assert(m.prods[p].rhs =~= a.subrange(0, 0) + m.prods[p].rhs + a.subrange(1, a.len() as int));
    lemma_step_derives(m, a, m.prods[p].rhs, 0, p);
}

/// A derivation stays one between any left and right context.
pub proof fn lemma_derives_in_context(
    m: GrammarModel,
    l: Seq<Symbol>,
    a: Seq<Symbol>,
    b: Seq<Symbol>,
    r: Seq<Symbol>,
    n: nat,
)
    requires
        derives_in(m, a, b, n),
    ensures
        derives_in(m, l + a + r, l + b + r, n),
    decreases n,
{
    if n > 0 {
        let x = choose|x: Seq<Symbol>| #[trigger] step(m, a, x) && derives_in(m, x, b, (n - 1) as nat);
        let (i, p) = choose|i: int, p: int| #[trigger] step_at(m, a, x, i, p);
        let big = l + a + r;
        let next = l + x + r;
        let at = l.len() + i;
        assert(big[at] == a[i]);
        assert(next =~= big.subrange(0, at) + m.prods[p].rhs + big.subrange(at + 1, big.len() as int));
        assert(step_at(m, big, next, at, p));
        assert(step(m, big, next));
        lemma_derives_in_context(m, l, x, b, r, (n - 1) as nat);
    }
}

/// If `mid` derives `mid2`, then whatever derives `l mid r` derives `l mid2 r`.
pub proof fn lemma_rewrite_inside(
    m: GrammarModel,
    from: Seq<Symbol>,
    l: Seq<Symbol>,
    mid: Seq<Symbol>,
    mid2: Seq<Symbol>,
    r: Seq<Symbol>,
)
    requires
        derives(m, from, l + mid + r),
        derives(m, mid, mid2),
    ensures
        derives(m, from, l + mid2 + r),
{
    let n = choose|n: nat| derives_in(m, mid, mid2, n);
    lemma_derives_in_context(m, l, mid, mid2, r, n);
    assert(derives(m, l + mid + r, l + mid2 + r));
    lemma_derives_trans(m, from, l + mid + r, l + mid2 + r);
}

/// A symbol that is nullable within `n` derives the empty form.
pub proof fn lemma_nullable_derives(m: GrammarModel, s: Symbol, n: nat)
    requires
        nullable_within(m, s, n),
    ensures
        derives(m, unit(s), Seq::<Symbol>::empty()),
    decreases n, 0nat,
{
    match s {
        Symbol::Term(_) => {},
        Symbol::Nonterm(a) => {
            let p = lemma_nullable_witness(m, a, n);
            lemma_apply(m, p);
            lemma_all_nullable_derive(m, m.prods[p].rhs, (n - 1) as nat);
            lemma_derives_trans(m, unit(s), m.prods[p].rhs, Seq::<Symbol>::empty());
        },
    }
}

/// A form of symbols that are nullable within `n` derives the empty form.
pub proof fn lemma_all_nullable_derive(m: GrammarModel, form: Seq<Symbol>, n: nat)
    requires
        all_nullable_within(m, form, n),
    ensures
        derives(m, form, Seq::<Symbol>::empty()),
    decreases n, 1 + form.len(),
{
    let none = Seq::<Symbol>::empty();
    if form.len() == 0 {
        assert(form =~= none);
        lemma_derives_refl(m, form);
    } else {
        let rest = form.subrange(1, form.len() as int);
        assert(nullable_within(m, form[0], n));
        lemma_nullable_derives(m, form[0], n);
        lemma_derives_refl(m, form);
        assert(form =~= none + unit(form[0]) + rest);
        lemma_rewrite_inside(m, form, none, unit(form[0]), none, rest);
        assert(rest =~= none + none + rest);
        assert forall|k: int| 0 <= k < rest.len() implies nullable_within(m, #[trigger] rest[k], n) by {
            assert(rest[k] == form[k + 1]);
        }
        lemma_all_nullable_derive(m, rest, n);
        lemma_derives_trans(m, form, rest, none);
    }
}

/// A form of nullable symbols derives the empty form.
pub proof fn lemma_nullable_form_vanishes(m: GrammarModel, form: Seq<Symbol>)
    requires
        all_nullable(m, form),
    ensures
        derives(m, form, Seq::<Symbol>::empty()),
{
    let n = lemma_common_height(m, form);
    lemma_all_nullable_derive(m, form, n);
}

/// Every symbol of a form that derives the empty form is nullable.
pub proof fn lemma_vanishing_form_is_nullable(m: GrammarModel, a: Seq<Symbol>, n: nat)
    requires
        derives_in(m, a, Seq::<Symbol>::empty(), n),
    ensures
        all_nullable(m, a),
    decreases n,
{
    if n > 0 {
        let none = Seq::<Symbol>::empty();
        let c = choose|c: Seq<Symbol>| #[trigger] step(m, a, c) && derives_in(m, c, none, (n - 1) as nat);
        let (i, p) = choose|i: int, p: int| #[trigger] step_at(m, a, c, i, p);
        lemma_vanishing_form_is_nullable(m, c, (n - 1) as nat);
        let rhs = m.prods[p].rhs;
        assert forall|j: int| 0 <= j < rhs.len() implies nullable(m, #[trigger] rhs[j]) by {
            assert(c[i + j] == rhs[j]);
        }
        lemma_nullable_intro(m, p);
        assert forall|k: int| 0 <= k < a.len() implies nullable(m, #[trigger] a[k]) by {
            if k < i {
                assert(c[k] == a[k]);
            } else if k > i {
                assert(c[k - 1 + rhs.len()] == a[k]);
            }
        }
    }
}

/// A nonterminal is nullable if and only if the empty string is derivable
/// from it.
pub proof fn lemma_nullable_iff_derives_empty(m: GrammarModel, a: u32)
    ensures
        nullable(m, Symbol::Nonterm(a)) <==> derives(
            m,
            unit(Symbol::Nonterm(a)),
            Seq::<Symbol>::empty(),
        ),
{
    let s = Symbol::Nonterm(a);
    if nullable(m, s) {
        let n = choose|n: nat| nullable_within(m, s, n);
        lemma_nullable_derives(m, s, n);
    }
    if derives(m, unit(s), Seq::<Symbol>::empty()) {
        let n = choose|n: nat| derives_in(m, unit(s), Seq::<Symbol>::empty(), n);
        lemma_vanishing_form_is_nullable(m, unit(s), n);
        assert(unit(s)[0] == s);
    }
}

/// A member `t` of FIRST(`s`) found within `n` begins a form derivable
/// from `s`; the result is what stands behind `t` in that form.
pub proof fn lemma_first_begins(m: GrammarModel, s: Symbol, t: u32, n: nat) -> (rest: Seq<Symbol>)
    requires
        first_within(m, s, t, n),
    ensures
        derives(m, unit(s), unit(Symbol::Term(t)) + rest),
    decreases n,
{
    let none = Seq::<Symbol>::empty();
    match s {
        Symbol::Term(_) => {
            assert(unit(s) =~= unit(Symbol::Term(t)) + none);
            lemma_derives_refl(m, unit(s));
            none
        },
        Symbol::Nonterm(a) => {
            let (p, k) = lemma_first_witness(m, a, t, n);
            let rhs = m.prods[p].rhs;
            let pre = rhs.subrange(0, k);
            let post = rhs.subrange(k + 1, rhs.len() as int);
            let inner = lemma_first_begins(m, rhs[k], t, (n - 1) as nat);
            lemma_apply(m, p);
            lemma_nullable_form_vanishes(m, pre);
            assert(rhs =~= none + pre + (unit(rhs[k]) + post));
            lemma_rewrite_inside(m, unit(s), none, pre, none, unit(rhs[k]) + post);
            assert(none + none + (unit(rhs[k]) + post) =~= none + unit(rhs[k]) + post);
            lemma_rewrite_inside(
                m,
                unit(s),
                none,
                unit(rhs[k]),
                unit(Symbol::Term(t)) + inner,
                post,
            );
            assert(none + (unit(Symbol::Term(t)) + inner) + post =~= unit(Symbol::Term(t)) + (inner
                + post));
            inner + post
        },
    }
}

/// Every terminal in FIRST(`s`) begins some form derivable from `s`.
pub proof fn lemma_first_is_sound(m: GrammarModel, s: Symbol, t: u32)
    requires
        first(m, s, t),
    ensures
        exists|rest: Seq<Symbol>| #[trigger] derives(m, unit(s), unit(Symbol::Term(t)) + rest),
{
    let n = choose|n: nat| first_within(m, s, t, n);
    let rest = lemma_first_begins(m, s, t, n);
    assert(derives(m, unit(s), unit(Symbol::Term(t)) + rest));
}

/// What is in FIRST of a form after one rewriting was in FIRST of the
/// form before it.
pub proof fn lemma_seq_first_back(
    m: GrammarModel,
    form: Seq<Symbol>,
    c: Seq<Symbol>,
    i: int,
    p: int,
    t: u32,
)
    requires
        step_at(m, form, c, i, p),
        seq_first(m, c, t),
    ensures
        seq_first(m, form, t),
{
    let k = choose|k: int| #[trigger] seq_first_at(m, c, t, k);
    let rhs = m.prods[p].rhs;
    let len = rhs.len() as int;
    let before = c.subrange(0, k);
    if k < i {
        assert(form[k] == c[k]);
        assert(form.subrange(0, k) =~= before);
        assert(seq_first_at(m, form, t, k));
    } else if k < i + len {
        let j = k - i;
        assert(c[k] == rhs[j]);
        assert forall|x: int| 0 <= x < j implies nullable(m, #[trigger] rhs.subrange(0, j)[x]) by {
            assert(before[i + x] == rhs[x]);
        }
        lemma_first_intro(m, p, j, t);
        assert forall|x: int| 0 <= x < i implies nullable(m, #[trigger] form.subrange(0, i)[x]) by {
            assert(before[x] == form[x]);
        }
        assert(seq_first_at(m, form, t, i));
    } else {
        let at = k - len + 1;
        assert forall|y: int| 0 <= y < len implies nullable(m, #[trigger] rhs[y]) by {
            assert(before[i + y] == rhs[y]);
        }
        lemma_nullable_intro(m, p);
        assert(form[at] == c[k]);
        assert forall|x: int| 0 <= x < at implies nullable(m, #[trigger] form.subrange(0, at)[x]) by {
            if x < i {
                assert(before[x] == form[x]);
            } else if x > i {
                assert(before[x - 1 + len] == form[x]);
            }
        }
        assert(seq_first_at(m, form, t, at));
    }
}

/// A terminal that begins a form derived from `form` in `n` steps is in
/// FIRST of `form`.
pub proof fn lemma_leading_is_first(
    m: GrammarModel,
    form: Seq<Symbol>,
    t: u32,
    rest: Seq<Symbol>,
    n: nat,
)
    requires
        (t as nat) < m.terms(),
        derives_in(m, form, unit(Symbol::Term(t)) + rest, n),
    ensures
        seq_first(m, form, t),
    decreases n,
{
    let target = unit(Symbol::Term(t)) + rest;
    if n == 0 {
        assert(form[0] == Symbol::Term(t));
        assert(first_within(m, form[0], t, 0));
        assert(seq_first_at(m, form, t, 0));
    } else {
        let c = choose|c: Seq<Symbol>| #[trigger] step(m, form, c) && derives_in(m, c, target, (n - 1) as nat);
        let (i, p) = choose|i: int, p: int| #[trigger] step_at(m, form, c, i, p);
        lemma_leading_is_first(m, c, t, rest, (n - 1) as nat);
        lemma_seq_first_back(m, form, c, i, p, t);
    }
}

/// A terminal of the grammar that begins some form derivable from `s` is
/// in FIRST(`s`).
pub proof fn lemma_first_is_complete(m: GrammarModel, s: Symbol, t: u32, rest: Seq<Symbol>)
    requires
        (t as nat) < m.terms(),
        derives(m, unit(s), unit(Symbol::Term(t)) + rest),
    ensures
        first(m, s, t),
{
    let n = choose|n: nat| derives_in(m, unit(s), unit(Symbol::Term(t)) + rest, n);
    lemma_leading_is_first(m, unit(s), t, rest, n);
    let k = choose|k: int| #[trigger] seq_first_at(m, unit(s), t, k);
    assert(unit(s)[0] == s);
}

/// A string of terminals of the grammar that is derivable from a
/// nonterminal begins with a member of its FIRST set, or is empty, and
/// then the nonterminal is nullable.
pub proof fn lemma_sentence_begins_in_first(m: GrammarModel, a: u32, sentence: Seq<u32>)
    requires
        forall|i: int| 0 <= i < sentence.len() ==> (#[trigger] sentence[i] as nat) < m.terms(),
        derives(m, unit(Symbol::Nonterm(a)), terminals(sentence)),
    ensures
        sentence.len() > 0 ==> first(m, Symbol::Nonterm(a), sentence[0]),
        sentence.len() == 0 ==> nullable(m, Symbol::Nonterm(a)),
{
    let form = terminals(sentence);
    if sentence.len() > 0 {
        let rest = form.subrange(1, form.len() as int);
        assert(form =~= unit(Symbol::Term(sentence[0])) + rest);
        assert((sentence[0] as nat) < m.terms());
        lemma_first_is_complete(m, Symbol::Nonterm(a), sentence[0], rest);
    } else {
        assert(form =~= Seq::<Symbol>::empty());
        lemma_nullable_iff_derives_empty(m, a);
    }
}

/// A member `t` of FIRST of a sequence begins a form derivable from the
/// sequence; the result is what stands behind `t` in that form.
pub proof fn lemma_seq_first_begins(m: GrammarModel, form: Seq<Symbol>, t: u32) -> (rest: Seq<Symbol>)
    requires
        seq_first(m, form, t),
    ensures
        derives(m, form, unit(Symbol::Term(t)) + rest),
{
    let none = Seq::<Symbol>::empty();
    let k = choose|k: int| #[trigger] seq_first_at(m, form, t, k);
    let pre = form.subrange(0, k);
    let post = form.subrange(k + 1, form.len() as int);
    let n = choose|n: nat| first_within(m, form[k], t, n);
    let inner = lemma_first_begins(m, form[k], t, n);
    lemma_nullable_form_vanishes(m, pre);
    lemma_derives_refl(m, form);
    assert(form =~= none + pre + (unit(form[k]) + post));
    lemma_rewrite_inside(m, form, none, pre, none, unit(form[k]) + post);
    assert(none + none + (unit(form[k]) + post) =~= none + unit(form[k]) + post);
    lemma_rewrite_inside(m, form, none, unit(form[k]), unit(Symbol::Term(t)) + inner, post);
    assert(none + (unit(Symbol::Term(t)) + inner) + post =~= unit(Symbol::Term(t)) + (inner + post));
    inner + post
}

/// A nonterminal reached within `n` occurs in a form derivable from the
/// augmented start; the result is what stands left and right of it there.
pub proof fn lemma_reachable_occurs(m: GrammarModel, a: u32, n: nat) -> (w: (Seq<Symbol>, Seq<Symbol>))
    requires
        reach_within(m, a, n),
    ensures
        derives(
            m,
            unit(Symbol::Nonterm(m.augmented())),
            w.0 + unit(Symbol::Nonterm(a)) + w.1,
        ),
    decreases n,
{
    let none = Seq::<Symbol>::empty();
    let root = unit(Symbol::Nonterm(m.augmented()));
    if a == m.augmented() {
        assert(root =~= none + unit(Symbol::Nonterm(a)) + none);
        lemma_derives_refl(m, root);
        (none, none)
    } else {
        let (p, i) = lemma_reach_witness(m, a, n);
        let rhs = m.prods[p].rhs;
        let (l, r) = lemma_reachable_occurs(m, m.prods[p].lhs, (n - 1) as nat);
        lemma_apply(m, p);
        lemma_rewrite_inside(m, root, l, unit(Symbol::Nonterm(m.prods[p].lhs)), rhs, r);
        let pre = rhs.subrange(0, i);
        let post = rhs.subrange(i + 1, rhs.len() as int);
        assert(l + rhs + r =~= (l + pre) + unit(Symbol::Nonterm(a)) + (post + r));
        (l + pre, post + r)
    }
}

/// The pair of a nonterminal and the terminal right behind it.
pub open spec fn pair(a: u32, t: u32) -> Seq<Symbol> {
    seq![Symbol::Nonterm(a), Symbol::Term(t)]
}

/// A member `t` of FOLLOW(`a`) found within `n` stands right behind `a`
/// in a form derivable from some nonterminal of the grammar; the result is
/// that nonterminal and what stands left and right of the two there.
pub proof fn lemma_follow_occurs_under(m: GrammarModel, a: u32, t: u32, n: nat) -> (w: (
    u32,
    Seq<Symbol>,
    Seq<Symbol>,
))
    requires
        m.wf(),
        follow_within(m, a, t, n),
    ensures
        (w.0 as nat) < m.nonterms(),
        derives(m, unit(Symbol::Nonterm(w.0)), w.1 + pair(a, t) + w.2),
    decreases n,
{
    let none = Seq::<Symbol>::empty();
    if a == m.start && t == m.eof() {
        let last = m.augmented_prod();
        lemma_apply(m, last);
        assert(m.prods[last].rhs =~= none + pair(a, t) + none);
        (m.augmented(), none, none)
    } else {
        let (p, i) = lemma_follow_witness(m, a, t, n);
        let rhs = m.prods[p].rhs;
        let lhs = m.prods[p].lhs;
        let pre = rhs.subrange(0, i);
        let rest = suffix(m, p, i);
        m.lemma_prod_in_range(p);
        lemma_apply(m, p);
        if seq_first(m, rest, t) {
            let tail = lemma_seq_first_begins(m, rest, t);
            let root = unit(Symbol::Nonterm(lhs));
            assert(rhs =~= (pre + unit(Symbol::Nonterm(a))) + rest + none);
            lemma_rewrite_inside(
                m,
                root,
                pre + unit(Symbol::Nonterm(a)),
                rest,
                unit(Symbol::Term(t)) + tail,
                none,
            );
            assert((pre + unit(Symbol::Nonterm(a))) + (unit(Symbol::Term(t)) + tail) + none =~= pre
                + pair(a, t) + tail);
            (lhs, pre, tail)
        } else {
            let (top, l, r) = lemma_follow_occurs_under(m, lhs, t, (n - 1) as nat);
            let root = unit(Symbol::Nonterm(top));
            let behind = unit(Symbol::Term(t)) + r;
            assert(l + pair(lhs, t) + r =~= l + unit(Symbol::Nonterm(lhs)) + behind);
            lemma_rewrite_inside(m, root, l, unit(Symbol::Nonterm(lhs)), rhs, behind);
            lemma_nullable_form_vanishes(m, rest);
            assert(l + rhs + behind =~= (l + pre + unit(Symbol::Nonterm(a))) + rest + behind);
            lemma_rewrite_inside(m, root, l + pre + unit(Symbol::Nonterm(a)), rest, none, behind);
            assert((l + pre + unit(Symbol::Nonterm(a))) + none + behind =~= (l + pre) + pair(a, t)
                + r);
            (top, l + pre, r)
        }
    }
}

/// Every terminal in FOLLOW(`a`) stands right behind `a` in some form
/// derivable from some nonterminal of the grammar.
pub proof fn lemma_follow_is_sound_under_some_root(m: GrammarModel, a: u32, t: u32)
    requires
        m.wf(),
        follow(m, a, t),
    ensures
        exists|root: u32, l: Seq<Symbol>, r: Seq<Symbol>|
            (root as nat) < m.nonterms() && #[trigger] derives(
                m,
                unit(Symbol::Nonterm(root)),
                l + pair(a, t) + r,
            ),
{
    let n = choose|n: nat| follow_within(m, a, t, n);
    let (root, l, r) = lemma_follow_occurs_under(m, a, t, n);
    assert(derives(m, unit(Symbol::Nonterm(root)), l + pair(a, t) + r));
}

/// In a grammar whose nonterminals are all reachable, a member `t` of
/// FOLLOW(`a`) found within `n` stands right behind `a` in a form derivable
/// from the augmented start; the result is what stands left and right of
/// the two there.
pub proof fn lemma_follow_occurs(m: GrammarModel, a: u32, t: u32, n: nat) -> (w: (
    Seq<Symbol>,
    Seq<Symbol>,
))
    requires
        m.wf(),
        forall|b: u32| (b as nat) < m.nonterms() ==> reachable(m, b),
        follow_within(m, a, t, n),
    ensures
        derives(m, unit(Symbol::Nonterm(m.augmented())), w.0 + pair(a, t) + w.1),
{
    let (top, l, r) = lemma_follow_occurs_under(m, a, t, n);
    assert(reachable(m, top));
    let h = choose|h: nat| reach_within(m, top, h);
    let (left, right) = lemma_reachable_occurs(m, top, h);
    let root = unit(Symbol::Nonterm(m.augmented()));
    lemma_rewrite_inside(m, root, left, unit(Symbol::Nonterm(top)), l + pair(a, t) + r, right);
    assert(left + (l + pair(a, t) + r) + right =~= (left + l) + pair(a, t) + (r + right));
    (left + l, r + right)
}

/// In a grammar whose nonterminals are all reachable, every terminal in
/// FOLLOW(`a`) stands right behind `a` in some form derivable from the
/// augmented start.
pub proof fn lemma_follow_is_sound(m: GrammarModel, a: u32, t: u32)
    requires
        m.wf(),
        forall|b: u32| (b as nat) < m.nonterms() ==> reachable(m, b),
        follow(m, a, t),
    ensures
        exists|l: Seq<Symbol>, r: Seq<Symbol>| #[trigger]
            derives(m, unit(Symbol::Nonterm(m.augmented())), l + pair(a, t) + r),
{
    let n = choose|n: nat| follow_within(m, a, t, n);
    let (l, r) = lemma_follow_occurs(m, a, t, n);
    assert(derives(m, unit(Symbol::Nonterm(m.augmented())), l + pair(a, t) + r));
}

/// What stands behind position `i` of a form.
pub open spec fn after(form: Seq<Symbol>, i: int) -> Seq<Symbol> {
    form.subrange(i + 1, form.len() as int)
}

/// Where a nonterminal stands at position `i` of `form`, it has `t` in
/// FOLLOW if `t` is in FIRST of what stands behind it.
pub open spec fn follows_at(m: GrammarModel, form: Seq<Symbol>, i: int, t: u32) -> bool {
    match form[i] {
        Symbol::Nonterm(b) => seq_first(m, after(form, i), t) ==> follow(m, b, t),
        Symbol::Term(_) => true,
    }
}

/// Every nonterminal of `form` has in FOLLOW what is in FIRST of what
/// stands behind it.
pub open spec fn follows_hold(m: GrammarModel, form: Seq<Symbol>) -> bool {
    forall|i: int, t: u32| 0 <= i < form.len() ==> #[trigger] follows_at(m, form, i, t)
}

/// What is in FIRST of two forms put together is in FIRST of the first,
/// or the first is nullable and it is in FIRST of the second.
pub proof fn lemma_seq_first_split(m: GrammarModel, u: Seq<Symbol>, v: Seq<Symbol>, t: u32)
    requires
        seq_first(m, u + v, t),
    ensures
        seq_first(m, u, t) || (all_nullable(m, u) && seq_first(m, v, t)),
{
    let whole = u + v;
    let k = choose|k: int| #[trigger] seq_first_at(m, whole, t, k);
    let before = whole.subrange(0, k);
    if k < u.len() {
        assert(whole[k] == u[k]);
        assert(u.subrange(0, k) =~= before);
        assert(seq_first_at(m, u, t, k));
    } else {
        let j = k - u.len();
        assert forall|x: int| 0 <= x < u.len() implies nullable(m, #[trigger] u[x]) by {
            assert(before[x] == u[x]);
        }
        assert forall|x: int| 0 <= x < j implies nullable(m, #[trigger] v.subrange(0, j)[x]) by {
            assert(before[u.len() + x] == v[x]);
        }
        assert(whole[k] == v[j]);
        assert(seq_first_at(m, v, t, j));
    }
}

/// One rewriting keeps every nonterminal's FOLLOW in step with what
/// stands behind it.
pub proof fn lemma_step_keeps_follows(
    m: GrammarModel,
    form: Seq<Symbol>,
    c: Seq<Symbol>,
    i: int,
    p: int,
)
    requires
        m.wf(),
        step_at(m, form, c, i, p),
        follows_hold(m, form),
    ensures
        follows_hold(m, c),
{
    let rhs = m.prods[p].rhs;
    let lhs = m.prods[p].lhs;
    let len = rhs.len() as int;
    assert forall|x: int, t: u32| 0 <= x < c.len() implies #[trigger] follows_at(m, c, x, t) by {
        match c[x] {
            Symbol::Term(_) => {},
            Symbol::Nonterm(b) => {
                if seq_first(m, after(c, x), t) {
                    if x < i {
                        let was = after(form, x);
                        let now = after(c, x);
                        let at = i - x - 1;
                        assert(was[at] == form[i]);
                        assert(now =~= was.subrange(0, at) + rhs + was.subrange(
                            at + 1,
                            was.len() as int,
                        ));
                        assert(step_at(m, was, now, at, p));
                        lemma_seq_first_back(m, was, now, at, p, t);
                        assert(form[x] == c[x]);
                        assert(follows_at(m, form, x, t));
                    } else if x < i + len {
                        let j = x - i;
                        assert(c[x] == rhs[j]);
                        assert(after(c, x) =~= suffix(m, p, j) + after(form, i));
                        lemma_seq_first_split(m, suffix(m, p, j), after(form, i), t);
                        if seq_first(m, suffix(m, p, j), t) {
                            lemma_follow_from_first(m, p, j, b, t);
                        } else {
                            assert(follows_at(m, form, i, t));
                            lemma_follow_from_parent(m, p, j, b, t);
                        }
                    } else {
                        let y = x - len + 1;
                        assert(c[x] == form[y]);
                        assert(after(c, x) =~= after(form, y));
                        assert(follows_at(m, form, y, t));
                    }
                }
            },
        }
    }
}

/// A derivation of one step or more ends with a rewriting; the result is
/// the form before that last rewriting.
pub proof fn lemma_last_step(m: GrammarModel, a: Seq<Symbol>, b: Seq<Symbol>, n: nat) -> (c: Seq<
    Symbol,
>)
    requires
        n > 0,
        derives_in(m, a, b, n),
    ensures
        derives_in(m, a, c, (n - 1) as nat),
        step(m, c, b),
    decreases n,
{
    let x = choose|x: Seq<Symbol>| #[trigger] step(m, a, x) && derives_in(m, x, b, (n - 1) as nat);
    if n == 1 {
        assert(derives_in(m, a, a, 0));
        a
    } else {
        let c = lemma_last_step(m, x, b, (n - 1) as nat);
        assert(derives_in(m, a, c, (n - 1) as nat));
        c
    }
}

/// In every form derived from the augmented start every nonterminal has
/// in FOLLOW what is in FIRST of what stands behind it.
pub proof fn lemma_derived_follows(m: GrammarModel, form: Seq<Symbol>, n: nat)
    requires
        m.wf(),
        derives_in(m, unit(Symbol::Nonterm(m.augmented())), form, n),
    ensures
        follows_hold(m, form),
    decreases n,
{
    if n == 0 {
        assert forall|i: int, t: u32| 0 <= i < form.len() implies #[trigger] follows_at(
            m,
            form,
            i,
            t,
        ) by {
            if seq_first(m, after(form, i), t) {
                let k = choose|k: int| #[trigger] seq_first_at(m, after(form, i), t, k);
                assert(false);
            }
        }
    } else {
        let c = lemma_last_step(m, unit(Symbol::Nonterm(m.augmented())), form, n);
        lemma_derived_follows(m, c, (n - 1) as nat);
        let (i, p) = choose|i: int, p: int| #[trigger] step_at(m, c, form, i, p);
        lemma_step_keeps_follows(m, c, form, i, p);
    }
}

/// A terminal of the grammar that stands right behind nonterminal `a` in
/// a form derivable from the augmented start is in FOLLOW(`a`).
pub proof fn lemma_follow_is_complete(
    m: GrammarModel,
    a: u32,
    t: u32,
    l: Seq<Symbol>,
    r: Seq<Symbol>,
)
    requires
        m.wf(),
        (t as nat) < m.terms(),
        derives(m, unit(Symbol::Nonterm(m.augmented())), l + pair(a, t) + r),
    ensures
        follow(m, a, t),
{
    let form = l + pair(a, t) + r;
    let n = choose|n: nat| derives_in(m, unit(Symbol::Nonterm(m.augmented())), form, n);
    lemma_derived_follows(m, form, n);
    let i = l.len() as int;
    let behind = after(form, i);
    assert(form[i] == Symbol::Nonterm(a));
    assert(behind[0] == Symbol::Term(t));
    assert(first_within(m, behind[0], t, 0));
    assert(seq_first_at(m, behind, t, 0));
    assert(follows_at(m, form, i, t));
}

} // verus!
