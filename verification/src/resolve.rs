//! Building the indexed grammar from the named one.

use vstd::prelude::*;
use vstd::string::StringExecFns;
use crate::ast::{
    augmented_name, bad_slot, dup_at, eof_name, first_bad_slot, first_dup, has_dup, knows,
    names_of, offset, resolves, rule_names_of, slot_error, symbol_resolves, total_prods,
    GrammarAst, GrammarError, ProductionAst, RuleAst, SymbolRef,
};
use crate::grammar::{model_of, prods_of, Grammar};
use crate::symbol::{GrammarModel, Precedence, Production, ProductionModel, Symbol};

verus! {

/// The first position of `name` in `names`.
pub fn find_name(names: &Vec<String>, name: &String) -> (r: Option<u32>)
    requires
        names@.len() <= u32::MAX,
    ensures
        match r {
            Some(i) => (i as int) < names@.len() && names@[i as int]@ == name@ && forall|j: int|
                0 <= j < i ==> (#[trigger] names@[j])@ != name@,
            None => !knows(names_of(names@), name@),
        },
{
    let mut i: usize = 0;
    while i < names.len()
        invariant
            i <= names@.len(),
            names@.len() <= u32::MAX,
            forall|j: int| 0 <= j < i ==> (#[trigger] names@[j])@ != name@,
        decreases names.len() - i,
    {
        if names[i] == *name {
            return Some(i as u32);
        }
        i = i + 1;
    }
    proof {
        let ns = names_of(names@);
        assert forall|j: int| 0 <= j < ns.len() implies #[trigger] ns[j] != name@ by {
            assert(names@[j]@ != name@);
        }
    }
    None
}

/// The first position whose name stands at an earlier position too.
pub fn first_duplicate(names: &Vec<String>) -> (r: Option<usize>)
    ensures
        match r {
            Some(j) => first_dup(names_of(names@), j as int),
            None => !has_dup(names_of(names@)),
        },
{
    let ghost ns = names_of(names@);
    let mut j: usize = 0;
    while j < names.len()
        invariant
            j <= names@.len(),
            ns == names_of(names@),
            forall|i: int| 0 <= i < j ==> !#[trigger] dup_at(ns, i),
        decreases names.len() - j,
    {
        let mut i: usize = 0;
        while i < j
            invariant
                i <= j,
                j < names@.len(),
                ns == names_of(names@),
                forall|h: int| 0 <= h < i ==> #[trigger] ns[h] != ns[j as int],
                forall|h: int| 0 <= h < j ==> !#[trigger] dup_at(ns, h),
            decreases j - i,
        {
            if names[i] == names[j] {
                proof {
                    assert(ns[i as int] == ns[j as int]);
                    assert(dup_at(ns, j as int));
                }
                return Some(j);
            }
            i = i + 1;
        }
        j = j + 1;
    }
    None
}

/// Names that stand once only are pairwise different.
pub proof fn lemma_distinct(names: Seq<Seq<char>>, a: int, b: int)
    requires
        !has_dup(names),
        0 <= a < names.len(),
        0 <= b < names.len(),
        a != b,
    ensures
        names[a] != names[b],
{
    if names[a] == names[b] {
        if a < b {
            assert(dup_at(names, b));
        } else {
            assert(dup_at(names, a));
        }
    }
}

/// A copy of `names`.
pub fn copy_names(names: &Vec<String>) -> (v: Vec<String>)
    ensures
        names_of(v@) == names_of(names@),
{
    let mut v: Vec<String> = Vec::new();
    let mut i: usize = 0;
    while i < names.len()
        invariant
            i <= names@.len(),
            v@.len() == i,
            forall|j: int| 0 <= j < i ==> (#[trigger] v@[j])@ == names@[j]@,
        decreases names.len() - i,
    {
        v.push(names[i].clone());
        i = i + 1;
    }
    proof {
        assert(names_of(v@) =~= names_of(names@));
    }
    v
}

/// The names of `rules`, in order.
pub fn collect_rule_names(rules: &Vec<RuleAst>) -> (v: Vec<String>)
    ensures
        names_of(v@) == rule_names_of(rules@),
{
    let mut v: Vec<String> = Vec::new();
    let mut i: usize = 0;
    while i < rules.len()
        invariant
            i <= rules@.len(),
            v@.len() == i,
            forall|j: int| 0 <= j < i ==> (#[trigger] v@[j])@ == rules@[j].name@,
        decreases rules.len() - i,
    {
        v.push(rules[i].name.clone());
        i = i + 1;
    }
    proof {
        assert(names_of(v@) =~= rule_names_of(rules@));
    }
    v
}

/// The productions of the first `r + 1` rules are those of the first `r`
/// and those of rule `r`.
pub proof fn lemma_total_step(rules: Seq<RuleAst>, r: int)
    requires
        0 <= r < rules.len(),
    ensures
        total_prods(rules.take(r + 1)) == total_prods(rules.take(r)) + rules[r].productions@.len(),
{
    assert(rules.take(r + 1).drop_last() =~= rules.take(r));
}

/// The first `r` rules have no more productions than all of them.
pub proof fn lemma_total_mono(rules: Seq<RuleAst>, r: int)
    requires
        0 <= r <= rules.len(),
    ensures
        total_prods(rules.take(r)) <= total_prods(rules),
    decreases rules.len() - r,
{
    if r == rules.len() {
        assert(rules.take(r) =~= rules);
    } else {
        lemma_total_step(rules, r);
        lemma_total_mono(rules, r + 1);
    }
}

/// The number of productions of all `rules`, if it is a 32-bit index.
pub fn count_prods(rules: &Vec<RuleAst>) -> (r: Option<u32>)
    ensures
        match r {
            Some(n) => n == total_prods(rules@) && n < u32::MAX,
            None => total_prods(rules@) >= u32::MAX,
        },
{
    let mut count: u32 = 0;
    let mut i: usize = 0;
    while i < rules.len()
        invariant
            i <= rules@.len(),
            count == total_prods(rules@.take(i as int)),
            count < u32::MAX,
        decreases rules.len() - i,
    {
        let len = rules[i].productions.len();
        proof {
            lemma_total_step(rules@, i as int);
            lemma_total_mono(rules@, i + 1);
        }
        if len >= (u32::MAX - count) as usize {
            return None;
        }
        count = count + len as u32;
        i = i + 1;
    }
    proof {
        assert(rules@.take(i as int) =~= rules@);
    }
    Some(count)
}

/// The index of the declared start nonterminal, or what is wrong with the
/// start declarations.
pub fn check_start(ast: &GrammarAst, rule_names: &Vec<String>) -> (r: Result<u32, GrammarError>)
    requires
        names_of(rule_names@) == ast.rule_names(),
        rule_names@.len() <= u32::MAX,
    ensures
        match r {
            Ok(s) => !ast.start_fails() && (s as int) < ast.rule_names().len()
                && ast.rule_names()[s as int] == ast.starts@[0]@,
            Err(e) => ast.start_fails() && ast.start_rejects(e),
        },
{
    if ast.starts.len() == 0 {
        return Err(GrammarError::MissingStart);
    }
    let mut j: usize = 1;
    while j < ast.starts.len()
        invariant
            1 <= j <= ast.starts@.len(),
            forall|i: int| 0 <= i < j ==> !#[trigger] ast.conflicting_start(i),
        decreases ast.starts.len() - j,
    {
        if ast.starts[j] != ast.starts[0] {
            let e = GrammarError::ConflictingStart(ast.starts[j].clone());
            proof {
                assert(ast.conflicting_start(j as int));
            }
            return Err(e);
        }
        j = j + 1;
    }
    match find_name(rule_names, &ast.starts[0]) {
        Some(s) => {
            proof {
                assert(names_of(rule_names@)[s as int] == ast.starts@[0]@);
                assert(knows(ast.rule_names(), ast.starts@[0]@));
            }
            Ok(s)
        },
        None => Err(GrammarError::UnknownStart(ast.starts[0].clone())),
    }
}

/// Position `(e, i)` comes before position `(d, j)`.
pub open spec fn earlier(e: int, i: int, d: int, j: int) -> bool {
    e < d || (e == d && i < j)
}

/// Every precedence declared before `(d, j)` can stand.
pub open spec fn precs_fine_before(ast: &GrammarAst, d: int, j: int) -> bool {
    forall|e: int, i: int| earlier(e, i, d, j) ==> !#[trigger] ast.bad_prec(e, i)
}

/// `pr` is what the declarations before `(d, j)` say of token `t`.
pub open spec fn prec_so_far(
    ast: &GrammarAst,
    t: int,
    pr: Option<Precedence>,
    d: int,
    j: int,
) -> bool {
    match pr {
        Some(p) => exists|e: int, i: int|
            ast.prec_slot(e, i) && earlier(e, i, d, j) && #[trigger] ast.prec_name(e, i)
                == ast.token_names()[t] && p.level == e + 1 && p.kind == ast.precedences@[e].kind,
        None => forall|e: int, i: int|
            ast.prec_slot(e, i) && earlier(e, i, d, j) ==> #[trigger] ast.prec_name(e, i)
                != ast.token_names()[t],
    }
}

/// The precedence of every token, end-of-input included, or what is wrong
/// at the first precedence that cannot stand.
pub fn assign_precedences(ast: &GrammarAst) -> (r: Result<Vec<Option<Precedence>>, GrammarError>)
    requires
        ast.tokens@.len() < u32::MAX,
        ast.precedences@.len() < u32::MAX,
        !has_dup(ast.token_names()),
    ensures
        match r {
            Ok(v) => !ast.precs_fail() && v@.len() == ast.tokens@.len() + 1
                && v@[ast.tokens@.len() as int] is None && forall|t: int|
                0 <= t < ast.tokens@.len() ==> ast.prec_describes(t, #[trigger] v@[t]),
            Err(e) => ast.precs_fail() && ast.prec_rejects(e),
        },
{
    let n = ast.tokens.len();
    let ghost toks = ast.token_names();
    let mut v: Vec<Option<Precedence>> = Vec::new();
    let mut t: usize = 0;
    while t <= n
        invariant
            t <= n + 1,
            n < u32::MAX,
            v@.len() == t,
            forall|u: int| 0 <= u < t ==> (#[trigger] v@[u]) is None,
        decreases n + 1 - t,
    {
        v.push(None);
        t = t + 1;
    }
    let mut d: usize = 0;
    while d < ast.precedences.len()
        invariant
            d <= ast.precedences@.len(),
            ast.precedences@.len() < u32::MAX,
            n == ast.tokens@.len(),
            n < u32::MAX,
            toks == ast.token_names(),
            !has_dup(toks),
            v@.len() == n + 1,
            v@[n as int] is None,
            precs_fine_before(ast, d as int, 0),
            forall|u: int| 0 <= u < n ==> prec_so_far(ast, u, #[trigger] v@[u], d as int, 0),
        decreases ast.precedences.len() - d,
    {
        let decl = &ast.precedences[d];
        let mut j: usize = 0;
        while j < decl.tokens.len()
            invariant
                d < ast.precedences@.len(),
                ast.precedences@.len() < u32::MAX,
                *decl == ast.precedences@[d as int],
                j <= decl.tokens@.len(),
                n == ast.tokens@.len(),
                n < u32::MAX,
                toks == ast.token_names(),
                !has_dup(toks),
                v@.len() == n + 1,
                v@[n as int] is None,
                precs_fine_before(ast, d as int, j as int),
                forall|u: int|
                    0 <= u < n ==> prec_so_far(ast, u, #[trigger] v@[u], d as int, j as int),
            decreases decl.tokens.len() - j,
        {
            let name = &decl.tokens[j];
            let ghost before = v@;
            proof {
                assert(ast.prec_slot(d as int, j as int));
                assert(ast.prec_name(d as int, j as int) == name@);
            }
            match find_name(&ast.tokens, name) {
                None => {
                    proof {
                        assert(ast.bad_prec(d as int, j as int));
                        assert(ast.first_bad_prec(d as int, j as int));
                    }
                    return Err(GrammarError::UnknownToken(name.clone()));
                },
                Some(t) => {
                    let ti = t as usize;
                    proof {
                        assert(toks[t as int] == name@);
                        assert(knows(toks, name@));
                    }
                    if v[ti].is_some() {
                        proof {
                            assert(prec_so_far(ast, t as int, v@[t as int], d as int, j as int));
                            let (e, i) = choose|e: int, i: int|
                                ast.prec_slot(e, i) && earlier(e, i, d as int, j as int)
                                    && #[trigger] ast.prec_name(e, i) == toks[t as int];
                            assert(ast.prec_repeated(d as int, j as int));
                            assert(ast.bad_prec(d as int, j as int));
                            assert(ast.first_bad_prec(d as int, j as int));
                        }
                        return Err(GrammarError::DuplicatePrecedence(name.clone()));
                    }
                    let level: u32 = (d + 1) as u32;
                    v.set(ti, Some(Precedence { level, kind: decl.kind }));
                    proof {
                        assert(prec_so_far(ast, t as int, before[t as int], d as int, j as int));
                        if ast.prec_repeated(d as int, j as int) {
                            let (e, i) = choose|e: int, i: int|
                                ast.prec_slot(e, i) && (e < d || (e == d && i < j))
                                    && #[trigger] ast.prec_name(e, i) == ast.prec_name(
                                    d as int,
                                    j as int,
                                );
                            assert(earlier(e, i, d as int, j as int));
                            assert(false);
                        }
                        assert(!ast.bad_prec(d as int, j as int));
                        assert forall|e: int, i: int| earlier(e, i, d as int, j + 1) implies !#[trigger] ast.bad_prec(
                            e,
                            i,
                        ) by {
                            if !earlier(e, i, d as int, j as int) {
                                assert(e == d && i == j);
                            }
                        }
                        assert forall|u: int| 0 <= u < n implies prec_so_far(
                            ast,
                            u,
                            #[trigger] v@[u],
                            d as int,
                            j + 1,
                        ) by {
                            if u == t as int {
                                assert(earlier(d as int, j as int, d as int, j + 1));
                                assert(ast.prec_name(d as int, j as int) == toks[u]);
                            } else {
                                assert(v@[u] == before[u]);
                                assert(prec_so_far(ast, u, before[u], d as int, j as int));
                                lemma_distinct(toks, u, t as int);
                                match before[u] {
                                    Some(p) => {
                                        let (e, i) = choose|e: int, i: int|
                                            ast.prec_slot(e, i) && earlier(e, i, d as int, j as int)
                                                && #[trigger] ast.prec_name(e, i) == toks[u]
                                                && p.level == e + 1 && p.kind
                                                == ast.precedences@[e].kind;
                                        assert(earlier(e, i, d as int, j + 1));
                                    },
                                    None => {
                                        assert forall|e: int, i: int|
                                            ast.prec_slot(e, i) && earlier(
                                                e,
                                                i,
                                                d as int,
                                                j + 1,
                                            ) implies #[trigger] ast.prec_name(e, i) != toks[u] by {
                                            if !earlier(e, i, d as int, j as int) {
                                                assert(e == d && i == j);
                                            }
                                        }
                                    },
                                }
                            }
                        }
                    }
                },
            }
            j = j + 1;
        }
        proof {
            let len = decl.tokens@.len() as int;
            assert forall|e: int, i: int| earlier(e, i, d + 1, 0) implies !#[trigger] ast.bad_prec(
                e,
                i,
            ) by {
                if ast.bad_prec(e, i) {
                    assert(ast.prec_slot(e, i));
                    assert(earlier(e, i, d as int, len));
                }
            }
            assert forall|u: int| 0 <= u < n implies prec_so_far(
                ast,
                u,
                #[trigger] v@[u],
                d + 1,
                0,
            ) by {
                assert(prec_so_far(ast, u, v@[u], d as int, len));
                match v@[u] {
                    Some(p) => {
                        let (e, i) = choose|e: int, i: int|
                            ast.prec_slot(e, i) && earlier(e, i, d as int, len)
                                && #[trigger] ast.prec_name(e, i) == toks[u] && p.level == e + 1
                                && p.kind == ast.precedences@[e].kind;
                        assert(earlier(e, i, d + 1, 0));
                    },
                    None => {
                        assert forall|e: int, i: int|
                            ast.prec_slot(e, i) && earlier(
                                e,
                                i,
                                d + 1,
                                0,
                            ) implies #[trigger] ast.prec_name(e, i) != toks[u] by {
                            assert(earlier(e, i, d as int, len));
                        }
                    },
                }
            }
        }
        d = d + 1;
    }
    proof {
        let all = ast.precedences@.len() as int;
        assert forall|e: int, i: int| !#[trigger] ast.bad_prec(e, i) by {
            if ast.bad_prec(e, i) {
                assert(ast.prec_slot(e, i));
                assert(earlier(e, i, all, 0));
            }
        }
        assert forall|u: int| 0 <= u < n implies ast.prec_describes(u, #[trigger] v@[u]) by {
            assert(prec_so_far(ast, u, v@[u], all, 0));
            match v@[u] {
                Some(p) => {
                    let (e, i) = choose|e: int, i: int|
                        ast.prec_slot(e, i) && earlier(e, i, all, 0) && #[trigger] ast.prec_name(
                            e,
                            i,
                        ) == toks[u] && p.level == e + 1 && p.kind == ast.precedences@[e].kind;
                    assert(ast.prec_slot(e, i) && ast.prec_name(e, i) == toks[u]);
                },
                None => {
                    assert forall|e: int, i: int| ast.prec_slot(e, i) implies #[trigger] ast.prec_name(
                        e,
                        i,
                    ) != toks[u] by {
                        assert(earlier(e, i, all, 0));
                    }
                },
            }
        }
    }
    Ok(v)
}

/// The index form of one production, or what its first slot that names
/// nothing names.
pub fn resolve_production(
    prod: &ProductionAst,
    lhs: u32,
    tokens: &Vec<String>,
    rule_names: &Vec<String>,
) -> (r: Result<Production, GrammarError>)
    requires
        tokens@.len() < u32::MAX,
        rule_names@.len() < u32::MAX,
    ensures
        match r {
            Ok(p) => resolves(names_of(tokens@), names_of(rule_names@), *prod, lhs as int, p@)
                && forall|k: int|
                !#[trigger] bad_slot(names_of(tokens@), names_of(rule_names@), *prod, k),
            Err(e) => exists|k: int|
                #[trigger] first_bad_slot(names_of(tokens@), names_of(rule_names@), *prod, k)
                    && slot_error(*prod, k, e),
        },
{
    let ghost toks = names_of(tokens@);
    let ghost ruls = names_of(rule_names@);
    let mut rhs: Vec<Symbol> = Vec::new();
    let mut k: usize = 0;
    while k < prod.symbols.len()
        invariant
            k <= prod.symbols@.len(),
            tokens@.len() < u32::MAX,
            rule_names@.len() < u32::MAX,
            toks == names_of(tokens@),
            ruls == names_of(rule_names@),
            rhs@.len() == k,
            forall|i: int|
                0 <= i < k ==> symbol_resolves(toks, ruls, prod.symbols@[i], #[trigger] rhs@[i]),
            forall|i: int| i < k ==> !#[trigger] bad_slot(toks, ruls, *prod, i),
        decreases prod.symbols.len() - k,
    {
        match &prod.symbols[k] {
            SymbolRef::Rule(n) => {
                match find_name(rule_names, n) {
                    Some(b) => {
                        proof {
                            assert(ruls[b as int] == n@);
                            assert(knows(ruls, n@));
                        }
                        rhs.push(Symbol::Nonterm(b));
                    },
                    None => {
                        proof {
                            assert(first_bad_slot(toks, ruls, *prod, k as int));
                        }
                        return Err(GrammarError::UnknownRule(n.clone()));
                    },
                }
            },
            SymbolRef::Token(n) => {
                match find_name(tokens, n) {
                    Some(t) => {
                        proof {
                            assert(toks[t as int] == n@);
                            assert(knows(toks, n@));
                        }
                        rhs.push(Symbol::Term(t));
                    },
                    None => {
                        proof {
                            assert(first_bad_slot(toks, ruls, *prod, k as int));
                        }
                        return Err(GrammarError::UnknownToken(n.clone()));
                    },
                }
            },
        }
        k = k + 1;
    }
    let prec: Option<u32> = match &prod.precedence {
        Some(n) => {
            match find_name(tokens, n) {
                Some(t) => {
                    proof {
                        assert(toks[t as int] == n@);
                        assert(knows(toks, n@));
                    }
                    Some(t)
                },
                None => {
                    proof {
                        assert(first_bad_slot(toks, ruls, *prod, k as int));
                    }
                    return Err(GrammarError::UnknownToken(n.clone()));
                },
            }
        },
        None => None,
    };
    Ok(Production { lhs, rhs, prec })
}

/// Production `pm` mentions only the first `nt` terminals and the first
/// `nr` nonterminals.
pub open spec fn prod_in_range(pm: ProductionModel, nt: int, nr: int) -> bool {
    &&& (pm.lhs as int) < nr
    &&& forall|k: int|
        0 <= k < pm.rhs.len() ==> match #[trigger] pm.rhs[k] {
            Symbol::Term(t) => (t as int) < nt,
            Symbol::Nonterm(b) => (b as int) < nr,
        }
    &&& match pm.prec {
        Some(t) => (t as int) < nt,
        None => true,
    }
}

/// Position `(q, b)` comes before production `a` of rule `r`.
pub open spec fn prod_before(q: int, b: int, r: int, a: int) -> bool {
    q < r || (q == r && b < a)
}

/// The index forms of all productions, rule by rule, or what the first
/// slot that names nothing names.
pub fn resolve_productions(ast: &GrammarAst, rule_names: &Vec<String>, total: u32) -> (r: Result<
    Vec<Production>,
    GrammarError,
>)
    requires
        names_of(rule_names@) == ast.rule_names(),
        ast.tokens@.len() < u32::MAX,
        ast.rules@.len() < u32::MAX,
        total == total_prods(ast.rules@),
        total < u32::MAX,
    ensures
        match r {
            Ok(v) => !ast.refs_fail() && v@.len() == total && (forall|q: int, b: int| #[trigger]
                ast.has_prod(q, b) ==> offset(ast.rules@, q) + b < v@.len() && resolves(
                    ast.token_names(),
                    ast.rule_names(),
                    ast.rules@[q].productions@[b],
                    q,
                    v@[offset(ast.rules@, q) + b]@,
                )) && (forall|p: int|
                0 <= p < v@.len() ==> prod_in_range(
                    (#[trigger] v@[p])@,
                    ast.tokens@.len() as int,
                    ast.rules@.len() as int,
                )),
            Err(e) => ast.refs_fail() && ast.ref_rejects(e),
        },
{
    let ghost toks = ast.token_names();
    let ghost ruls = ast.rule_names();
    let ghost nt = ast.tokens@.len() as int;
    let ghost nr = ast.rules@.len() as int;
    let mut v: Vec<Production> = Vec::new();
    let mut r: usize = 0;
    while r < ast.rules.len()
        invariant
            r <= ast.rules@.len(),
            toks == ast.token_names(),
            ruls == ast.rule_names(),
            ruls == names_of(rule_names@),
            nt == ast.tokens@.len(),
            nr == ast.rules@.len(),
            nt < u32::MAX,
            nr < u32::MAX,
            v@.len() == offset(ast.rules@, r as int),
            forall|q: int, b: int| #[trigger]
                ast.has_prod(q, b) && q < r ==> offset(ast.rules@, q) + b < v@.len() && resolves(
                    toks,
                    ruls,
                    ast.rules@[q].productions@[b],
                    q,
                    v@[offset(ast.rules@, q) + b]@,
                ),
            forall|q: int, b: int, i: int| q < r ==> !#[trigger] ast.bad_ref(q, b, i),
            forall|p: int| 0 <= p < v@.len() ==> prod_in_range((#[trigger] v@[p])@, nt, nr),
        decreases ast.rules.len() - r,
    {
        let rule = &ast.rules[r];
        let mut a: usize = 0;
        while a < rule.productions.len()
            invariant
                r < ast.rules@.len(),
                *rule == ast.rules@[r as int],
                a <= rule.productions@.len(),
                toks == ast.token_names(),
                ruls == ast.rule_names(),
                ruls == names_of(rule_names@),
                nt == ast.tokens@.len(),
                nr == ast.rules@.len(),
                nt < u32::MAX,
                nr < u32::MAX,
                v@.len() == offset(ast.rules@, r as int) + a,
                forall|q: int, b: int| #[trigger]
                    ast.has_prod(q, b) && prod_before(q, b, r as int, a as int) ==> offset(
                        ast.rules@,
                        q,
                    ) + b < v@.len() && resolves(
                        toks,
                        ruls,
                        ast.rules@[q].productions@[b],
                        q,
                        v@[offset(ast.rules@, q) + b]@,
                    ),
                forall|q: int, b: int, i: int|
                    prod_before(q, b, r as int, a as int) ==> !#[trigger] ast.bad_ref(q, b, i),
                forall|p: int| 0 <= p < v@.len() ==> prod_in_range((#[trigger] v@[p])@, nt, nr),
            decreases rule.productions.len() - a,
        {
            let ghost before = v@;
            proof {
                assert(ast.has_prod(r as int, a as int));
                assert(names_of(rule_names@).len() == rule_names@.len());
            }
            match resolve_production(&rule.productions[a], r as u32, &ast.tokens, rule_names) {
                Err(e) => {
                    proof {
                        let k = choose|k: int|
                            #[trigger] first_bad_slot(toks, ruls, rule.productions@[a as int], k)
                                && slot_error(rule.productions@[a as int], k, e);
                        assert(ast.bad_ref(r as int, a as int, k));
                        assert forall|q: int, b: int, i: int|
                            (q < r || (q == r && (b < a || (b == a && i < k)))) implies !#[trigger] ast.bad_ref(
                            q,
                            b,
                            i,
                        ) by {
                            if q == r && b == a {
                                assert(!bad_slot(toks, ruls, rule.productions@[a as int], i));
                            } else {
                                assert(prod_before(q, b, r as int, a as int));
                            }
                        }
                        assert(ast.first_bad_ref(r as int, a as int, k));
                    }
                    return Err(e);
                },
                Ok(p) => {
                    proof {
                        let pm = p@;
                        assert forall|k: int| 0 <= k < pm.rhs.len() implies match #[trigger] pm.rhs[k] {
                            Symbol::Term(t) => (t as int) < nt,
                            Symbol::Nonterm(b) => (b as int) < nr,
                        } by {
                            assert(symbol_resolves(
                                toks,
                                ruls,
                                rule.productions@[a as int].symbols@[k],
                                pm.rhs[k],
                            ));
                        }
                        assert(prod_in_range(pm, nt, nr));
                    }
                    v.push(p);
                    proof {
                        assert forall|q: int, b: int| #[trigger]
                            ast.has_prod(q, b) && prod_before(q, b, r as int, a + 1) implies offset(
                            ast.rules@,
                            q,
                        ) + b < v@.len() && resolves(
                            toks,
                            ruls,
                            ast.rules@[q].productions@[b],
                            q,
                            v@[offset(ast.rules@, q) + b]@,
                        ) by {
                            if prod_before(q, b, r as int, a as int) {
                                assert(v@[offset(ast.rules@, q) + b] == before[offset(ast.rules@, q)
                                    + b]);
                            } else {
                                assert(q == r && b == a);
                            }
                        }
                        assert forall|q: int, b: int, i: int|
                            prod_before(q, b, r as int, a + 1) implies !#[trigger] ast.bad_ref(
                            q,
                            b,
                            i,
                        ) by {
                            if !prod_before(q, b, r as int, a as int) {
                                assert(q == r && b == a);
                            }
                        }
                        assert forall|p: int| 0 <= p < v@.len() implies prod_in_range(
                            (#[trigger] v@[p])@,
                            nt,
                            nr,
                        ) by {
                            if p < before.len() {
                                assert(v@[p] == before[p]);
                            }
                        }
                    }
                },
            }
            a = a + 1;
        }
        proof {
            lemma_total_step(ast.rules@, r as int);
            assert forall|q: int, b: int| #[trigger] ast.has_prod(q, b) && q < r + 1 implies offset(
                ast.rules@,
                q,
            ) + b < v@.len() && resolves(
                toks,
                ruls,
                ast.rules@[q].productions@[b],
                q,
                v@[offset(ast.rules@, q) + b]@,
            ) by {
                assert(prod_before(q, b, r as int, a as int));
            }
            assert forall|q: int, b: int, i: int| q < r + 1 implies !#[trigger] ast.bad_ref(
                q,
                b,
                i,
            ) by {
                if ast.bad_ref(q, b, i) {
                    assert(ast.has_prod(q, b));
                    assert(prod_before(q, b, r as int, a as int));
                }
            }
        }
        r = r + 1;
    }
    proof {
        assert(ast.rules@.take(r as int) =~= ast.rules@);
        assert forall|q: int, b: int, i: int| !#[trigger] ast.bad_ref(q, b, i) by {
            if ast.bad_ref(q, b, i) {
                assert(ast.has_prod(q, b));
            }
        }
    }
    Ok(v)
}

impl Grammar {
    /// Builds the grammar that `ast` describes, or says what is first
    /// wrong with it.
    pub fn new(ast: &GrammarAst) -> (r: Result<Grammar, GrammarError>)
        ensures
            match r {
                Ok(g) => ast.valid() && ast.describes(g@),
                Err(e) => ast.rejects(e),
            },
    {
        let max: usize = 0xffff_ffff;
        if ast.tokens.len() >= max || ast.rules.len() >= max || ast.precedences.len() >= max {
            return Err(GrammarError::TooLarge);
        }
        let total: u32 = match count_prods(&ast.rules) {
            Some(n) => n,
            None => {
                return Err(GrammarError::TooLarge);
            },
        };
        match first_duplicate(&ast.tokens) {
            Some(j) => {
                let name = ast.tokens[j].clone();
                proof {
                    assert(first_dup(ast.token_names(), j as int));
                    assert(name@ == ast.token_names()[j as int]);
                }
                return Err(GrammarError::DuplicateToken(name));
            },
            None => {},
        }
        let mut rule_names = collect_rule_names(&ast.rules);
        match first_duplicate(&rule_names) {
            Some(j) => {
                let name = rule_names[j].clone();
                proof {
                    assert(first_dup(ast.rule_names(), j as int));
                    assert(name@ == names_of(rule_names@)[j as int]);
                }
                return Err(GrammarError::DuplicateRule(name));
            },
            None => {},
        }
        let start: u32 = match check_start(ast, &rule_names) {
            Ok(s) => s,
            Err(e) => {
                return Err(e);
            },
        };
        let precs = match assign_precedences(ast) {
            Ok(v) => v,
            Err(e) => {
                return Err(e);
            },
        };
        let mut prods = match resolve_productions(ast, &rule_names, total) {
            Ok(v) => v,
            Err(e) => {
                return Err(e);
            },
        };
        let ghost user_prods = prods@;
        let eof: u32 = ast.tokens.len() as u32;
        let augmented: u32 = ast.rules.len() as u32;
        let mut rhs: Vec<Symbol> = Vec::new();
        rhs.push(Symbol::Nonterm(start));
        rhs.push(Symbol::Term(eof));
        prods.push(Production { lhs: augmented, rhs, prec: None });
        let mut term_names = copy_names(&ast.tokens);
        term_names.push(String::from_str("$"));
        rule_names.push(String::from_str("^"));
        let levels: u32 = ast.precedences.len() as u32;
        proof {
            reveal_strlit("$");
            reveal_strlit("^");
            let toks = ast.token_names();
            let ruls = ast.rule_names();
            let m = model_of(term_names@, rule_names@, prods@, start, precs@, levels);
            assert("$"@ =~= eof_name());
            assert("^"@ =~= augmented_name());
            assert(m.term_names =~= toks.push(eof_name()));
            assert(m.rule_names =~= ruls.push(augmented_name()));
            assert(m.prods.len() == total + 1);
            assert(m.prods[total as int].rhs =~= seq![Symbol::Nonterm(start), Symbol::Term(eof)]);
            assert forall|q: int, b: int| #[trigger] ast.has_prod(q, b) implies resolves(
                toks,
                ruls,
                ast.rules@[q].productions@[b],
                q,
                m.prods[offset(ast.rules@, q) + b],
            ) by {
                let at = offset(ast.rules@, q) + b;
                assert(prods@[at] == user_prods[at]);
            }
            assert forall|p: int| 0 <= p < m.prods.len() - 1 implies #[trigger] m.user_prod_ok(p) by {
                assert(prods@[p] == user_prods[p]);
                assert(prod_in_range(user_prods[p]@, toks.len() as int, ruls.len() as int));
                let pm = m.prods[p];
                assert forall|k: int| 0 <= k < pm.rhs.len() implies m.has_user_symbol(
                    #[trigger] pm.rhs[k],
                ) by {}
            }
            assert forall|t: int| 0 <= t < m.precs.len() implies match #[trigger] m.precs[t] {
                Some(pr) => 1 <= pr.level <= m.levels,
                None => true,
            } by {
                if t < toks.len() {
                    assert(ast.prec_describes(t, precs@[t]));
                }
            }
            assert forall|t: int, u: int|
                0 <= t < m.precs.len() && 0 <= u < m.precs.len() implies match (
                #[trigger] m.precs[t],
                #[trigger] m.precs[u],
            ) {
                (Some(a), Some(b)) => a.level == b.level ==> a.kind == b.kind,
                _ => true,
            } by {
                if t < toks.len() && u < toks.len() {
                    assert(ast.prec_describes(t, precs@[t]));
                    assert(ast.prec_describes(u, precs@[u]));
                }
            }
            assert(m.wf());
            assert(ast.describes(m));
        }
        Ok(Grammar::assemble(term_names, rule_names, prods, start, precs, levels))
    }
}

} // verus!
