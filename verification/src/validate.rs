//! Static checks of a grammar. Each check yields diagnostics of its own
//! kind; together they form the validation report.

use vstd::prelude::*;
use vstd::string::StringExecFns;
use crate::derivation::reachable;
use crate::firsts::Firsts;
use crate::follows::{follow, Follows};
use crate::grammar::Grammar;
use crate::index_set::IndexSet;
use crate::marks::{mark_set, marks, Marking};
use crate::precedence::{precedences_of, prod_precedence, PrecedenceTable};
use crate::reach::{productive, productive_set, reachable_set};
use crate::symbol::{AssocKind, GrammarModel, Precedence, Symbol};
use crate::text::{decimal, decimal_text};

verus! {

/// What a diagnostic is about.
#[derive(Clone, Copy, Debug, PartialEq, Eq, Structural)]
pub enum DiagnosticKind {
    /// A nonterminal that no derivation from the start reaches.
    UnreachableNonterminal,
    /// A nonterminal that derives no string of terminals.
    UnproductiveNonterminal,
    /// A nonterminal that productions mention and that owns no production.
    UndefinedSymbol,
    /// A precedence level that no terminal in use and no production has.
    UnusedPrecedence,
    /// A production of a level that does not associate, which a terminal
    /// of the same level can follow.
    AmbiguousPrecedence,
}

/// What a diagnostic points at.
#[derive(Clone, Copy, Debug, PartialEq, Eq, Structural)]
pub enum Subject {
    Nonterminal(u32),
    Level(u32),
    Production(u32),
}

/// One finding of the validator.
#[derive(Debug, Clone, PartialEq, Eq)]
pub struct Diagnostic {
    pub kind: DiagnosticKind,
    pub subject: Subject,
    pub message: String,
}

/// The mathematical content of a diagnostic.
pub struct DiagnosticModel {
    pub kind: DiagnosticKind,
    pub subject: Subject,
    pub message: Seq<char>,
}

impl Diagnostic {
    pub open spec fn view(&self) -> DiagnosticModel {
        DiagnosticModel { kind: self.kind, subject: self.subject, message: self.message@ }
    }
}

/// The mathematical content of a report.
pub open spec fn views(v: Seq<Diagnostic>) -> Seq<DiagnosticModel> {
    Seq::new(v.len(), |i: int| v[i]@)
}

/// Terminal `t` can follow production `p`, and it has the level of `pr`.
pub open spec fn clashes_with(m: GrammarModel, p: int, pr: Precedence, t: u32) -> bool {
    &&& (t as int) < m.terms()
    &&& follow(m, m.prods[p].lhs, t)
    &&& m.precs[t as int] matches Some(q) && q.level == pr.level
}

/// Production `p` has a level that does not associate, and a terminal of
/// that level can follow it: reducing `p` and shifting that terminal are
/// in a conflict that precedence cannot settle.
pub open spec fn clash(m: GrammarModel, p: int) -> bool {
    match prod_precedence(m, p) {
        Some(pr) => pr.kind is Nonassoc && exists|t: u32| #[trigger] clashes_with(m, p, pr, t),
        None => false,
    }
}

/// How many things a check of kind `kind` looks at: the declared
/// nonterminals, the precedence levels, or the declared productions.
pub open spec fn checked(m: GrammarModel, kind: DiagnosticKind) -> nat {
    match kind {
        DiagnosticKind::UnreachableNonterminal => (m.nonterms() - 1) as nat,
        DiagnosticKind::UnproductiveNonterminal => (m.nonterms() - 1) as nat,
        DiagnosticKind::UndefinedSymbol => (m.nonterms() - 1) as nat,
        DiagnosticKind::UnusedPrecedence => m.levels,
        DiagnosticKind::AmbiguousPrecedence => (m.prods.len() - 1) as nat,
    }
}

/// Whether the check of kind `kind` finds fault with its `i`-th thing.
pub open spec fn flagged(m: GrammarModel, kind: DiagnosticKind, i: u32) -> bool {
    match kind {
        DiagnosticKind::UnreachableNonterminal => !reachable(m, i),
        DiagnosticKind::UnproductiveNonterminal => !productive(m, Symbol::Nonterm(i)),
        DiagnosticKind::UndefinedSymbol => marks(m, Marking::Nonterminals, i) && !marks(
            m,
            Marking::Owners,
            i,
        ),
        DiagnosticKind::UnusedPrecedence => !marks(m, Marking::Levels, i),
        DiagnosticKind::AmbiguousPrecedence => clash(m, i as int),
    }
}

/// What the diagnostic of kind `kind` on the `i`-th thing points at.
pub open spec fn subject_of(kind: DiagnosticKind, i: u32) -> Subject {
    match kind {
        DiagnosticKind::UnreachableNonterminal => Subject::Nonterminal(i),
        DiagnosticKind::UnproductiveNonterminal => Subject::Nonterminal(i),
        DiagnosticKind::UndefinedSymbol => Subject::Nonterminal(i),
        DiagnosticKind::UnusedPrecedence => Subject::Level((i + 1) as u32),
        DiagnosticKind::AmbiguousPrecedence => Subject::Production(i),
    }
}

/// What the diagnostic of kind `kind` on the `i`-th thing says.
pub open spec fn message_of(m: GrammarModel, kind: DiagnosticKind, i: u32) -> Seq<char> {
    match kind {
        DiagnosticKind::UnreachableNonterminal => "unreachable nonterminal "@
            + m.rule_names[i as int],
        DiagnosticKind::UnproductiveNonterminal => "unproductive nonterminal "@
            + m.rule_names[i as int],
        DiagnosticKind::UndefinedSymbol => "undefined symbol "@ + m.rule_names[i as int],
        DiagnosticKind::UnusedPrecedence => "unused precedence level "@ + decimal_text(
            (i + 1) as nat,
        ),
        DiagnosticKind::AmbiguousPrecedence => "ambiguous precedence in production "@
            + decimal_text(i as nat),
    }
}

/// The diagnostic of kind `kind` on the `i`-th thing.
pub open spec fn diagnosis(m: GrammarModel, kind: DiagnosticKind, i: u32) -> DiagnosticModel {
    DiagnosticModel { kind, subject: subject_of(kind, i), message: message_of(m, kind, i) }
}

/// The diagnostics of kind `kind` on the members of `set` below `n`, in
/// increasing order.
pub open spec fn listed(m: GrammarModel, kind: DiagnosticKind, set: Set<u32>, n: nat) -> Seq<
    DiagnosticModel,
>
    decreases n,
{
    if n == 0 {
        Seq::empty()
    } else {
        let front = listed(m, kind, set, (n - 1) as nat);
        if set.contains((n - 1) as u32) {
            front.push(diagnosis(m, kind, (n - 1) as u32))
        } else {
            front
        }
    }
}

/// What the check of kind `kind` finds in `m`.
pub open spec fn findings(m: GrammarModel, kind: DiagnosticKind) -> Seq<DiagnosticModel> {
    listed(m, kind, Set::new(|i: u32| flagged(m, kind, i)), checked(m, kind))
}

/// The validation report of `m`: the findings of the five checks, one
/// check after the other.
pub open spec fn report(m: GrammarModel) -> Seq<DiagnosticModel> {
    findings(m, DiagnosticKind::UnreachableNonterminal) + findings(
        m,
        DiagnosticKind::UnproductiveNonterminal,
    ) + findings(m, DiagnosticKind::UndefinedSymbol) + findings(
        m,
        DiagnosticKind::UnusedPrecedence,
    ) + findings(m, DiagnosticKind::AmbiguousPrecedence)
}

/// Two sets with the same members below `n` give the same list.
pub proof fn lemma_listed_agree(
    m: GrammarModel,
    kind: DiagnosticKind,
    a: Set<u32>,
    b: Set<u32>,
    n: nat,
)
    requires
        n <= u32::MAX,
        forall|i: u32| (i as nat) < n ==> (a.contains(i) <==> b.contains(i)),
    ensures
        listed(m, kind, a, n) == listed(m, kind, b, n),
    decreases n,
{
    if n > 0 {
        lemma_listed_agree(m, kind, a, b, (n - 1) as nat);
        let i = (n - 1) as u32;
        assert(a.contains(i) <==> b.contains(i));
    }
}

/// The diagnostic of kind `kind` on the `i`-th thing of `g`.
pub fn make_diagnostic(g: &Grammar, kind: DiagnosticKind, i: u32) -> (d: Diagnostic)
    requires
        (i as nat) < checked(g@, kind),
    ensures
        d@ == diagnosis(g@, kind, i),
{
    proof {
        use_type_invariant(g);
        g.lemma_well_formed();
    }
    match kind {
        DiagnosticKind::UnreachableNonterminal => {
            let mut message = String::from_str("unreachable nonterminal ");
            message.append(g.rule_name(i).as_str());
            Diagnostic { kind, subject: Subject::Nonterminal(i), message }
        },
        DiagnosticKind::UnproductiveNonterminal => {
            let mut message = String::from_str("unproductive nonterminal ");
            message.append(g.rule_name(i).as_str());
            Diagnostic { kind, subject: Subject::Nonterminal(i), message }
        },
        DiagnosticKind::UndefinedSymbol => {
            let mut message = String::from_str("undefined symbol ");
            message.append(g.rule_name(i).as_str());
            Diagnostic { kind, subject: Subject::Nonterminal(i), message }
        },
        DiagnosticKind::UnusedPrecedence => {
            let mut message = String::from_str("unused precedence level ");
            message.append(decimal(i + 1).as_str());
            Diagnostic { kind, subject: Subject::Level(i + 1), message }
        },
        DiagnosticKind::AmbiguousPrecedence => {
            let mut message = String::from_str("ambiguous precedence in production ");
            message.append(decimal(i).as_str());
            Diagnostic { kind, subject: Subject::Production(i), message }
        },
    }
}

/// Appends to `out` the diagnostics of kind `kind` on the members of
/// `set` below `n`, in increasing order.
pub fn append_findings(
    g: &Grammar,
    kind: DiagnosticKind,
    set: &IndexSet,
    n: u32,
    out: &mut Vec<Diagnostic>,
)
    requires
        n == checked(g@, kind),
    ensures
        views(final(out)@) == views(old(out)@) + listed(g@, kind, set@, n as nat),
{
    let ghost start = views(out@);
    let ghost m = g@;
    let mut i: u32 = 0;
    proof {
        assert(views(out@) =~= start + listed(m, kind, set@, 0));
    }
    while i < n
        invariant
            i <= n,
            m == g@,
            n == checked(m, kind),
            views(out@) == start + listed(m, kind, set@, i as nat),
        decreases n - i,
    {
        let ghost so_far = views(out@);
        if set.contains(i) {
            let d = make_diagnostic(g, kind, i);
            out.push(d);
            proof {
                assert(views(out@) =~= so_far.push(diagnosis(m, kind, i)));
            }
        }
        proof {
            assert(views(out@) =~= start + listed(m, kind, set@, (i + 1) as nat));
        }
        i = i + 1;
    }
}

/// Whether production `p` of `g` is in a conflict that precedence cannot
/// settle.
pub fn has_clash(g: &Grammar, follows: &Follows, precs: &PrecedenceTable, p: u32) -> (r: bool)
    requires
        follows.grammar() == g@,
        precs.grammar() == g@,
        p < g@.prods.len(),
    ensures
        r == clash(g@, p as int),
{
    let ghost m = g@;
    let terms = g.terms_len();
    let lhs = g.prod_lhs(p);
    proof {
        m.lemma_prod_in_range(p as int);
    }
    match precs.of_production(p) {
        None => false,
        Some(pr) => {
            match pr.kind {
                AssocKind::Nonassoc => {
                    let after = follows.follow_set(lhs);
                    let mut t: u32 = 0;
                    while t < terms
                        invariant
                            t <= terms,
                            m == g@,
                            m.wf(),
                            terms == m.terms(),
                            p < m.prods.len(),
                            lhs == m.prods[p as int].lhs,
                            prod_precedence(m, p as int) == Some(pr),
                            pr.kind is Nonassoc,
                            forall|u: u32| after@.contains(u) <==> follow(m, lhs, u),
                            forall|u: u32| u < t ==> !#[trigger] clashes_with(m, p as int, pr, u),
                        decreases terms - t,
                    {
                        if after.contains(t) {
                            match g.term_precedence(t) {
                                Some(q) => {
                                    if q.level == pr.level {
                                        proof {
                                            assert(clashes_with(m, p as int, pr, t));
                                        }
                                        return true;
                                    }
                                },
                                None => {},
                            }
                        }
                        t = t + 1;
                    }
                    false
                },
                _ => false,
            }
        },
    }
}

/// The declared productions of `g` that are in a conflict that precedence
/// cannot settle.
pub fn clash_set(g: &Grammar, follows: &Follows, precs: &PrecedenceTable) -> (set: IndexSet)
    requires
        follows.grammar() == g@,
        precs.grammar() == g@,
    ensures
        set.capacity() == g@.prods.len(),
        forall|p: u32| set@.contains(p) <==> ((p as nat) < g@.prods.len() && clash(g@, p as int)),
{
    let n = g.prods_len();
    let mut set = IndexSet::new(n);
    let mut p: u32 = 0;
    while p < n
        invariant
            p <= n,
            n == g@.prods.len(),
            follows.grammar() == g@,
            precs.grammar() == g@,
            set.capacity() == n,
            forall|q: u32| set@.contains(q) <==> (q < p && clash(g@, q as int)),
        decreases n - p,
    {
        if has_clash(g, follows, precs, p) {
            set.insert(p);
        }
        p = p + 1;
    }
    set
}

/// Runs every check on `g` and reports all they find: first the
/// unreachable nonterminals, then the unproductive ones, then the
/// nonterminals mentioned without a production, then the unused
/// precedence levels, then the productions whose precedence is ambiguous;
/// each in increasing order.
pub fn validate(g: &Grammar, follows: &Follows, precs: &PrecedenceTable) -> (r: Vec<Diagnostic>)
    requires
        follows.grammar() == g@,
        precs.grammar() == g@,
    ensures
        views(r@) == report(g@),
{
    let ghost m = g@;
    let declared_rules = g.nonterms_len() - 1;
    let declared_prods = g.prods_len() - 1;
    let levels = g.levels_len();
    let mut out: Vec<Diagnostic> = Vec::new();
    proof {
        assert(views(out@) =~= Seq::<DiagnosticModel>::empty());
    }

    let unreachable = reachable_set(g).complement();
    proof {
        let kind = DiagnosticKind::UnreachableNonterminal;
        lemma_listed_agree(
            m,
            kind,
            unreachable@,
            Set::new(|i: u32| flagged(m, kind, i)),
            checked(m, kind),
        );
    }
    append_findings(g, DiagnosticKind::UnreachableNonterminal, &unreachable, declared_rules, &mut out);

    let unproductive = productive_set(g).complement();
    proof {
        let kind = DiagnosticKind::UnproductiveNonterminal;
        lemma_listed_agree(
            m,
            kind,
            unproductive@,
            Set::new(|i: u32| flagged(m, kind, i)),
            checked(m, kind),
        );
    }
    append_findings(
        g,
        DiagnosticKind::UnproductiveNonterminal,
        &unproductive,
        declared_rules,
        &mut out,
    );

    let owners = mark_set(g, Marking::Owners);
    let undefined = mark_set(g, Marking::Nonterminals).minus(&owners);
    proof {
        let kind = DiagnosticKind::UndefinedSymbol;
        lemma_listed_agree(
            m,
            kind,
            undefined@,
            Set::new(|i: u32| flagged(m, kind, i)),
            checked(m, kind),
        );
    }
    append_findings(g, DiagnosticKind::UndefinedSymbol, &undefined, declared_rules, &mut out);

    let unused = mark_set(g, Marking::Levels).complement();
    proof {
        let kind = DiagnosticKind::UnusedPrecedence;
        lemma_listed_agree(
            m,
            kind,
            unused@,
            Set::new(|i: u32| flagged(m, kind, i)),
            checked(m, kind),
        );
    }
    append_findings(g, DiagnosticKind::UnusedPrecedence, &unused, levels, &mut out);

    let clashes = clash_set(g, follows, precs);
    proof {
        let kind = DiagnosticKind::AmbiguousPrecedence;
        lemma_listed_agree(
            m,
            kind,
            clashes@,
            Set::new(|i: u32| flagged(m, kind, i)),
            checked(m, kind),
        );
    }
    append_findings(g, DiagnosticKind::AmbiguousPrecedence, &clashes, declared_prods, &mut out);
    proof {
        assert(views(out@) =~= report(m));
    }
    out
}

/// Everything that the analyses find out of one grammar.
pub struct Analysis {
    pub firsts: Firsts,
    pub follows: Follows,
    pub precedences: PrecedenceTable,
    pub report: Vec<Diagnostic>,
}

/// Runs the analyses of `g` one after the other: FIRST, then FOLLOW, the
/// precedences, and the validation that reads them.
pub fn analyze(g: &Grammar) -> (r: Analysis)
    ensures
        r.firsts.grammar() == g@,
        r.firsts@.represents(g@),
        r.follows.grammar() == g@,
        r.follows@.represents(g@),
        r.precedences.grammar() == g@,
        r.precedences@ == precedences_of(g@),
        views(r.report@) == report(g@),
{
    let firsts = Firsts::new(g);
    let follows = Follows::new(g, &firsts);
    let precedences = PrecedenceTable::new(g);
    let report = validate(g, &follows, &precedences);
    Analysis { firsts, follows, precedences, report }
}

} // verus!
