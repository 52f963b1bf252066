//! Random sentences of a grammar, for testing parsers.

use vstd::prelude::*;
use crate::costs::{
    all_costed, cost_of, good_entry, is_min_cost, lemma_cost_is_size, lemma_costed_form, sat,
    size_of, total_cost, total_size, CostTable,
};
use crate::derivation::{
    derives_in, lemma_derives_in_trans, lemma_sentence_begins_in_first, step, step_at, terminals,
    unit,
};
use crate::firsts::{first, nullable};
use crate::grammar::Grammar;
use crate::reach::productive;
use crate::symbol::{GrammarModel, Symbol};

verus! {

/// The state that follows state `s` of the source of choices.
pub open spec fn scramble(s: u64) -> u64 {
    s.wrapping_mul(6364136223846793005u64).wrapping_add(1442695040888963407u64)
}

/// A source of pseudo-random choices: a linear congruential generator
/// whose whole state is its seed.
pub struct ChoiceSource {
    state: u64,
}

impl ChoiceSource {
    /// The state of the source.
    pub closed spec fn state(&self) -> u64 {
        self.state
    }

    /// A source that starts from `seed`.
    pub fn new(seed: u64) -> (r: ChoiceSource)
        ensures
            r.state() == seed,
    {
        ChoiceSource { state: seed }
    }

    /// Chooses one of `n` things: moves on to the next state and takes its
    /// upper bits modulo `n`.
    pub fn pick(&mut self, n: usize) -> (r: usize)
        requires
            n > 0,
        ensures
            final(self).state() == scramble(old(self).state()),
            r == ((scramble(old(self).state()) >> 33u64) as nat) % (n as nat),
            r < n,
    {
        self.state = self.state.wrapping_mul(6364136223846793005u64).wrapping_add(
            1442695040888963407u64,
        );
        let upper: u64 = self.state >> 33u64;
        let bound: u64 = n as u64;
        (upper % bound) as usize
    }
}

/// `s` back to front.
pub open spec fn reversed(s: Seq<Symbol>) -> Seq<Symbol> {
    Seq::new(s.len(), |i: int| s[s.len() - 1 - i])
}

/// The sentential form that a generation stands at: the terminals put out
/// so far, then the symbols still to expand, the top of the stack first.
pub open spec fn form_of(out: Seq<u32>, stack: Seq<Symbol>) -> Seq<Symbol> {
    terminals(out) + reversed(stack)
}

/// The greater of two numbers.
pub open spec fn larger(a: nat, b: nat) -> nat {
    if a >= b {
        a
    } else {
        b
    }
}

/// The sizes of a form with one more symbol at its end.
pub proof fn lemma_total_size_push(sizes: Seq<nat>, s: Seq<Symbol>, x: Symbol)
    ensures
        total_size(sizes, s.push(x)) == total_size(sizes, s) + size_of(sizes, x),
{
    assert(s.push(x).drop_last() =~= s);
}

/// The sizes of two forms put together.
pub proof fn lemma_total_size_concat(sizes: Seq<nat>, a: Seq<Symbol>, b: Seq<Symbol>)
    ensures
        total_size(sizes, a + b) == total_size(sizes, a) + total_size(sizes, b),
    decreases b.len(),
{
    if b.len() == 0 {
        assert(a + b =~= a);
    } else {
        lemma_total_size_concat(sizes, a, b.drop_last());
        assert((a + b).drop_last() =~= a + b.drop_last());
    }
}

/// The sizes of a form back to front.
pub proof fn lemma_total_size_reversed(sizes: Seq<nat>, s: Seq<Symbol>)
    ensures
        total_size(sizes, reversed(s)) == total_size(sizes, s),
    decreases s.len(),
{
    if s.len() > 0 {
        let front = s.drop_last();
        lemma_total_size_reversed(sizes, front);
        let head = Seq::<Symbol>::empty().push(s.last());
        assert(reversed(s) =~= head + reversed(front));
        lemma_total_size_concat(sizes, head, reversed(front));
        lemma_total_size_push(sizes, Seq::<Symbol>::empty(), s.last());
    } else {
        assert(reversed(s) =~= s);
    }
}

/// Production `q` belongs to `x`, every symbol of it has a cost, and the
/// costs together are less than `room`.
pub open spec fn fits(costs: Seq<Option<u64>>, m: GrammarModel, q: int, x: u32, room: u64) -> bool {
    &&& 0 <= q < m.prods.len()
    &&& m.prods[q].lhs == x
    &&& all_costed(costs, m.prods[q].rhs)
    &&& sat(total_cost(costs, m.prods[q].rhs)) < room
}

/// The productions below `upto` of nonterminal `x` that fit into `room`,
/// in declaration order.
pub open spec fn fitting_list(
    costs: Seq<Option<u64>>,
    m: GrammarModel,
    x: u32,
    room: u64,
    upto: nat,
) -> Seq<u32>
    decreases upto,
{
    if upto == 0 {
        Seq::empty()
    } else {
        let front = fitting_list(costs, m, x, room, (upto - 1) as nat);
        if fits(costs, m, upto - 1, x, room) {
            front.push((upto - 1) as u32)
        } else {
            front
        }
    }
}

/// The production that expands nonterminal `x` where `room` is free and
/// the source of choices is in `state`: of the productions that fit, the
/// one that the source draws; where none fits, the production of the
/// shortest derivation.
pub open spec fn choice(
    costs: Seq<Option<u64>>,
    best: Seq<u32>,
    m: GrammarModel,
    x: u32,
    room: u64,
    state: u64,
) -> u32 {
    let list = fitting_list(costs, m, x, room, m.prods.len());
    if list.len() > 0 {
        list[(((scramble(state) >> 33u64) as nat) % list.len()) as int]
    } else {
        best[x as int]
    }
}

/// The state of the source of choices after that choice: the next state
/// where there was something to draw from, else the same.
pub open spec fn source_after(
    costs: Seq<Option<u64>>,
    m: GrammarModel,
    x: u32,
    room: u64,
    state: u64,
) -> u64 {
    if fitting_list(costs, m, x, room, m.prods.len()).len() > 0 {
        scramble(state)
    } else {
        state
    }
}

/// The productions of nonterminal `x` that fit into `room`, in
/// declaration order.
pub fn admissible(table: &CostTable, g: &Grammar, x: u32, room: u64) -> (v: Vec<u32>)
    requires
        table.grammar() == g@,
    ensures
        v@ == fitting_list(table.costs(), g@, x, room, g@.prods.len()),
        forall|q: u32| v@.contains(q) <==> fits(table.costs(), g@, q as int, x, room),
        forall|i: int, j: int| 0 <= i < j < v@.len() ==> v@[i] < v@[j],
{
    let n = g.prods_len();
    let ghost m = g@;
    let ghost costs = table.costs();
    let mut v: Vec<u32> = Vec::new();
    let mut q: u32 = 0;
    while q < n
        invariant
            q <= n,
            n == m.prods.len(),
            m == g@,
            costs == table.costs(),
            table.grammar() == m,
            v@ == fitting_list(costs, m, x, room, q as nat),
            forall|r: u32| v@.contains(r) <==> (r < q && fits(costs, m, r as int, x, room)),
            forall|i: int, j: int| 0 <= i < j < v@.len() ==> v@[i] < v@[j],
            forall|i: int| 0 <= i < v@.len() ==> v@[i] < q,
        decreases n - q,
    {
        let mut take = false;
        if g.prod_lhs(q) == x {
            match table.cost_of_form(g.prod_rhs(q)) {
                Some(c) => {
                    if c < room {
                        take = true;
                    }
                },
                None => {},
            }
        }
        if take {
            let ghost before = v@;
            v.push(q);
            proof {
                assert forall|r: u32|
                    v@.contains(r) <==> (r < q + 1 && fits(costs, m, r as int, x, room)) by {
                    if v@.contains(r) {
                        let i = choose|i: int| 0 <= i < v@.len() && v@[i] == r;
                        if i < before.len() {
                            assert(before[i] == r);
                            assert(before.contains(r));
                        }
                    }
                    if r < q + 1 && fits(costs, m, r as int, x, room) {
                        if r < q {
                            assert(before.contains(r));
                            let i = choose|i: int| 0 <= i < before.len() && before[i] == r;
                            assert(v@[i] == r);
                        } else {
                            assert(v@[before.len() as int] == r);
                        }
                    }
                }
            }
        }
        q = q + 1;
    }
    v
}

/// Puts the symbols of `rhs` on `stack`, the last first, so that the
/// first comes off first.
pub fn push_reversed(stack: &mut Vec<Symbol>, rhs: &Vec<Symbol>)
    ensures
        final(stack)@ == old(stack)@ + reversed(rhs@),
{
    let ghost base = stack@;
    let n = rhs.len();
    let mut j: usize = n;
    while j > 0
        invariant
            j <= n,
            n == rhs@.len(),
            stack@ == base + reversed(rhs@).take(n - j),
        decreases j,
    {
        j = j - 1;
        stack.push(rhs[j]);
        proof {
            assert(stack@ =~= base + reversed(rhs@).take(n - j));
        }
    }
    proof {
        assert(reversed(rhs@).take(n as int) =~= reversed(rhs@));
    }
}

/// The terminals `s` are derived from nonterminal `a` in at most `limit`
/// steps.
pub open spec fn within(m: GrammarModel, a: u32, s: Seq<u32>, limit: nat) -> bool {
    exists|n: nat| n <= limit && #[trigger] derives_in(m, unit(Symbol::Nonterm(a)), terminals(s), n)
}

/// The state of a generation as mathematics: the symbols still to
/// expand, the top of the stack last; what is left of the budget; the
/// terminals handed out; and the state of the source of choices.
pub struct RunModel {
    pub stack: Seq<Symbol>,
    pub room: u64,
    pub emitted: Seq<u32>,
    pub source: u64,
}

/// The state in which a generation of nonterminal `a` begins.
pub open spec fn initial(a: u32, budget: u32, source: u64) -> RunModel {
    RunModel { stack: unit(Symbol::Nonterm(a)), room: budget as u64, emitted: Seq::empty(), source }
}

/// What the budget leaves free for one expansion while the symbols of
/// `rest` wait: the room beyond their costs, or nothing.
pub open spec fn free_room(costs: Seq<Option<u64>>, rest: Seq<Symbol>, room: u64) -> u64 {
    let waiting = sat(total_cost(costs, rest));
    if waiting < room {
        (room - waiting) as u64
    } else {
        0
    }
}

/// The state after one step: a terminal on top of the stack is handed
/// out; a nonterminal is replaced by the production chosen for it, the
/// first symbol on top, and that takes one off the budget.
#[verifier::opaque]
pub open spec fn advance(
    costs: Seq<Option<u64>>,
    best: Seq<u32>,
    m: GrammarModel,
    run: RunModel,
) -> RunModel {
    if run.stack.len() == 0 {
        run
    } else {
        let rest = run.stack.drop_last();
        match run.stack.last() {
            Symbol::Term(t) => RunModel {
                stack: rest,
                room: run.room,
                emitted: run.emitted.push(t),
                source: run.source,
            },
            Symbol::Nonterm(x) => {
                let free = free_room(costs, rest, run.room);
                let p = choice(costs, best, m, x, free, run.source);
                RunModel {
                    stack: rest + reversed(m.prods[p as int].rhs),
                    room: if run.room > 0 {
                        (run.room - 1) as u64
                    } else {
                        0
                    },
                    emitted: run.emitted,
                    source: source_after(costs, m, x, free, run.source),
                }
            },
        }
    }
}

/// The state after `n` steps.
pub open spec fn advanced(
    costs: Seq<Option<u64>>,
    best: Seq<u32>,
    m: GrammarModel,
    run: RunModel,
    n: nat,
) -> RunModel
    decreases n,
{
    if n == 0 {
        run
    } else {
        advance(costs, best, m, advanced(costs, best, m, run, (n - 1) as nat))
    }
}

/// A nonterminal is on top of the stack.
pub open spec fn expands(run: RunModel) -> bool {
    run.stack.len() > 0 && run.stack.last() is Nonterm
}

/// Step `k` from `run` expands a nonterminal.
pub open spec fn expands_at(
    costs: Seq<Option<u64>>,
    best: Seq<u32>,
    m: GrammarModel,
    run: RunModel,
    k: nat,
) -> bool {
    expands(advanced(costs, best, m, run, k))
}

/// Each of the first `n` steps from `run` expands a nonterminal.
pub open spec fn expanding(
    costs: Seq<Option<u64>>,
    best: Seq<u32>,
    m: GrammarModel,
    run: RunModel,
    n: nat,
) -> bool {
    forall|k: nat| k < n ==> #[trigger] expands_at(costs, best, m, run, k)
}

/// After `n` expansions from `before` the terminal `r` comes off the
/// stack and leaves `after`; or the stack is empty, nothing comes, and
/// `after` is that state.
pub open spec fn next_at(
    costs: Seq<Option<u64>>,
    best: Seq<u32>,
    m: GrammarModel,
    before: RunModel,
    after: RunModel,
    r: Option<u32>,
    n: nat,
) -> bool {
    let mid = advanced(costs, best, m, before, n);
    &&& expanding(costs, best, m, before, n)
    &&& match r {
        Some(t) => mid.stack.len() > 0 && mid.stack.last() == Symbol::Term(t) && after == advance(
            costs,
            best,
            m,
            mid,
        ),
        None => mid.stack.len() == 0 && after == mid,
    }
}

/// `r` is the next terminal of the generation in state `before`, or
/// nothing where its sentence is complete, and `after` is the state that
/// this leaves.
pub open spec fn next_of(
    costs: Seq<Option<u64>>,
    best: Seq<u32>,
    m: GrammarModel,
    before: RunModel,
    after: RunModel,
    r: Option<u32>,
) -> bool {
    exists|n: nat| #[trigger] next_at(costs, best, m, before, after, r, n)
}

/// After `k` steps from `run` something is on the stack.
pub open spec fn busy_at(
    costs: Seq<Option<u64>>,
    best: Seq<u32>,
    m: GrammarModel,
    run: RunModel,
    k: nat,
) -> bool {
    advanced(costs, best, m, run, k).stack.len() > 0
}

/// Each of the first `n` states from `run` has something on its stack.
pub open spec fn running(
    costs: Seq<Option<u64>>,
    best: Seq<u32>,
    m: GrammarModel,
    run: RunModel,
    n: nat,
) -> bool {
    forall|k: nat| k < n ==> #[trigger] busy_at(costs, best, m, run, k)
}

/// After `n` steps, and no sooner, the generation from `before` has an
/// empty stack, has handed out `sentence`, and has left the source of
/// choices in state `source`.
pub open spec fn produces_at(
    costs: Seq<Option<u64>>,
    best: Seq<u32>,
    m: GrammarModel,
    before: RunModel,
    sentence: Seq<u32>,
    source: u64,
    n: nat,
) -> bool {
    let end = advanced(costs, best, m, before, n);
    &&& running(costs, best, m, before, n)
    &&& end.stack.len() == 0
    &&& end.emitted == sentence
    &&& end.source == source
}

/// The generation from `before` runs to an empty stack, hands out
/// `sentence` on the way, and leaves the source of choices in `source`.
pub open spec fn produces(
    costs: Seq<Option<u64>>,
    best: Seq<u32>,
    m: GrammarModel,
    before: RunModel,
    sentence: Seq<u32>,
    source: u64,
) -> bool {
    exists|n: nat| #[trigger] produces_at(costs, best, m, before, sentence, source, n)
}

/// Steps add up.
pub proof fn lemma_advanced_add(
    costs: Seq<Option<u64>>,
    best: Seq<u32>,
    m: GrammarModel,
    run: RunModel,
    a: nat,
    b: nat,
)
    ensures
        advanced(costs, best, m, advanced(costs, best, m, run, a), b) == advanced(
            costs,
            best,
            m,
            run,
            a + b,
        ),
    decreases b,
{
    if b > 0 {
        lemma_advanced_add(costs, best, m, run, a, (b - 1) as nat);
        assert(advanced(costs, best, m, run, a + b) == advance(
            costs,
            best,
            m,
            advanced(costs, best, m, run, (a + b - 1) as nat),
        ));
    }
}

/// A generation that has run `a` steps and runs `b` more has run
/// `a + b`.
pub proof fn lemma_running_on(
    costs: Seq<Option<u64>>,
    best: Seq<u32>,
    m: GrammarModel,
    run: RunModel,
    a: nat,
    b: nat,
)
    requires
        running(costs, best, m, run, a),
        running(costs, best, m, advanced(costs, best, m, run, a), b),
    ensures
        running(costs, best, m, run, a + b),
{
    let mid = advanced(costs, best, m, run, a);
    assert forall|k: nat| k < a + b implies #[trigger] busy_at(costs, best, m, run, k) by {
        if k >= a {
            let j = (k - a) as nat;
            lemma_advanced_add(costs, best, m, run, a, j);
            assert(busy_at(costs, best, m, mid, j));
        }
    }
}

/// One generation in progress: the symbols that are still to expand, and
/// what is left of the budget. It hands out its sentence terminal by
/// terminal.
pub struct Generation {
    start: u32,
    budget: u32,
    stack: Vec<Symbol>,
    room: u64,
    emitted: Ghost<Seq<u32>>,
    steps: Ghost<nat>,
}

impl Generation {
    /// The nonterminal whose sentence is generated.
    pub closed spec fn start(&self) -> u32 {
        self.start
    }

    /// The budget that the generation began with.
    pub closed spec fn budget(&self) -> u32 {
        self.budget
    }

    /// The terminals handed out so far.
    pub closed spec fn emitted(&self) -> Seq<u32> {
        self.emitted@
    }

    /// The symbols that are still to expand, the next one last.
    pub closed spec fn stack(&self) -> Seq<Symbol> {
        self.stack@
    }

    /// What is left of the budget.
    pub closed spec fn room(&self) -> u64 {
        self.room
    }

    /// The state of the generation where the source of choices is in
    /// state `source`.
    pub open spec fn model(&self, source: u64) -> RunModel {
        RunModel { stack: self.stack(), room: self.room(), emitted: self.emitted(), source }
    }

    /// Nothing is left to expand: the sentence is complete.
    pub closed spec fn finished(&self) -> bool {
        self.stack@.len() == 0
    }

    /// The number of symbols that are still to expand.
    pub closed spec fn pending(&self) -> nat {
        self.stack@.len()
    }

    /// Whether the sentence is complete.
    pub fn is_finished(&self) -> (r: bool)
        ensures
            r == self.finished(),
    {
        self.stack.len() == 0
    }
}

/// Generates random sentences of one grammar within a budget of
/// expansions.
pub struct SentenceGenerator {
    table: CostTable,
}

impl SentenceGenerator {
    /// The grammar the generator was made for.
    pub closed spec fn grammar(&self) -> GrammarModel {
        self.table.grammar()
    }

    /// The number of productions in the shortest derivation that the
    /// generator knows for nonterminal `a`.
    pub closed spec fn size(&self, a: u32) -> nat {
        self.table.sizes()[a as int]
    }

    /// The cost of each nonterminal.
    pub closed spec fn costs(&self) -> Seq<Option<u64>> {
        self.table.costs()
    }

    /// The production of the shortest derivation of each nonterminal.
    pub closed spec fn best(&self) -> Seq<u32> {
        self.table.best()
    }

    /// The most expansions that `run` has still to make: what is left of
    /// its budget, or the sizes of its pending symbols together where
    /// that is more.
    pub closed spec fn ahead(&self, run: &Generation) -> nat {
        larger(run.room as nat, total_size(self.table.sizes(), run.stack@))
    }

    /// `run` is a generation of this generator in good order: what it has
    /// handed out, followed by what it has still to expand, is derived
    /// from its nonterminal, and the steps taken and the expansions ahead
    /// are together within its limit.
    pub closed spec fn runs(&self, run: &Generation) -> bool {
        let m = self.table.grammar();
        let costs = self.table.costs();
        let sizes = self.table.sizes();
        &&& self.table.in_order()
        &&& (run.start as nat) < m.nonterms()
        &&& m.has_symbols(run.stack@)
        &&& all_costed(costs, run.stack@)
        &&& forall|i: int| 0 <= i < run.emitted@.len() ==> (#[trigger] run.emitted@[i] as nat) < m.terms()
        &&& derives_in(
            m,
            unit(Symbol::Nonterm(run.start)),
            form_of(run.emitted@, run.stack@),
            run.steps@,
        )
        &&& run.room <= u32::MAX
        &&& run.steps@ + self.ahead(run) <= larger(run.budget as nat, sizes[run.start as int])
    }

    /// A generator for `g`.
    pub fn new(g: &Grammar) -> (r: SentenceGenerator)
        ensures
            r.grammar() == g@,
    {
        SentenceGenerator { table: CostTable::new(g) }
    }

    /// The number of productions in the shortest derivation of a string
    /// of terminals from nonterminal `a`, cut off at the greatest 64-bit
    /// number; nothing where `a` derives no such string.
    pub fn min_cost(&self, a: u32) -> (r: Option<u64>)
        requires
            a < self.grammar().nonterms(),
        ensures
            r is Some <==> productive(self.grammar(), Symbol::Nonterm(a)),
            r matches Some(c) ==> is_min_cost(self.grammar(), Symbol::Nonterm(a), c) && c == sat(
                self.size(a),
            ) && c >= 1,
    {
        let r = self.table.min_cost(a);
        proof {
            assert(good_entry(
                self.table.grammar(),
                self.table.costs(),
                self.table.best(),
                self.table.sizes(),
                a as int,
            ));
        }
        r
    }

    /// Chooses the production that expands nonterminal `x` where `room`
    /// is free: of the productions that fit, the one that `source` draws;
    /// where none fits, the production of the shortest derivation, and
    /// the source stays as it is.
    pub fn choose_production(&self, g: &Grammar, x: u32, room: u64, source: &mut ChoiceSource) -> (p:
        u32)
        requires
            self.grammar() == g@,
            x < g@.nonterms(),
        ensures
            p == choice(self.costs(), self.best(), g@, x, room, old(source).state()),
            final(source).state() == source_after(self.costs(), g@, x, room, old(source).state()),
            fits(self.costs(), g@, p as int, x, room) || (fitting_list(
                self.costs(),
                g@,
                x,
                room,
                g@.prods.len(),
            ).len() == 0 && p == self.best()[x as int]),
    {
        let list = admissible(&self.table, g, x, room);
        if list.len() > 0 {
            let i = source.pick(list.len());
            proof {
                assert(list@.contains(list@[i as int]));
            }
            list[i]
        } else {
            self.table.best_prod(x)
        }
    }

    /// Begins a generation of a sentence of nonterminal `a` with `budget`
    /// expansions; nothing where `a` is no nonterminal of the grammar or
    /// derives no string of terminals. To begin again is to restart.
    pub fn begin(&self, a: u32, budget: u32) -> (r: Option<Generation>)
        ensures
            r is Some <==> ((a as nat) < self.grammar().nonterms() && productive(
                self.grammar(),
                Symbol::Nonterm(a),
            )),
            r matches Some(run) ==> self.runs(&run) && run.start() == a && run.budget() == budget
                && run.emitted() == Seq::<u32>::empty() && !run.finished() && forall|source: u64|
                #[trigger] run.model(source) == initial(a, budget, source),
    {
        if (a as usize) >= self.table.len() {
            return None;
        }
        if self.table.min_cost(a).is_none() {
            return None;
        }
        let mut stack: Vec<Symbol> = Vec::new();
        stack.push(Symbol::Nonterm(a));
        let run = Generation {
            start: a,
            budget,
            stack,
            room: budget as u64,
            emitted: Ghost(Seq::empty()),
            steps: Ghost(0),
        };
        proof {
            let m = self.table.grammar();
            let sizes = self.table.sizes();
            assert(form_of(run.emitted@, run.stack@) =~= unit(Symbol::Nonterm(a)));
            lemma_total_size_push(sizes, Seq::<Symbol>::empty(), Symbol::Nonterm(a));
            assert(run.stack@ =~= Seq::<Symbol>::empty().push(Symbol::Nonterm(a)));
            assert(good_entry(m, self.table.costs(), self.table.best(), sizes, a as int));
            assert(derives_in(m, unit(Symbol::Nonterm(a)), unit(Symbol::Nonterm(a)), 0));
            assert(run.stack@ =~= unit(Symbol::Nonterm(a)));
        }
        Some(run)
    }

    /// A generation that is complete has handed out a sentence that is
    /// derived from its nonterminal within its limit.
    pub proof fn lemma_finished_is_derived(&self, run: &Generation)
        requires
            self.runs(run),
            run.finished(),
        ensures
            within(
                self.grammar(),
                run.start(),
                run.emitted(),
                larger(run.budget() as nat, self.size(run.start())),
            ),
    {
        let m = self.table.grammar();
        assert(form_of(run.emitted@, run.stack@) =~= terminals(run.emitted@));
        assert(derives_in(
            m,
            unit(Symbol::Nonterm(run.start)),
            terminals(run.emitted@),
            run.steps@,
        ));
    }

    /// One step of `run`: a terminal on top of the stack is handed out; a
    /// nonterminal is expanded by one of its productions that the budget
    /// still has room for, chosen by `source`, or where there is none, by
    /// the production of its shortest known derivation, and that takes
    /// one off the budget.
    pub fn step(&self, g: &Grammar, run: &mut Generation, source: &mut ChoiceSource) -> (r: Option<
        u32,
    >)
        requires
            self.grammar() == g@,
            self.runs(old(run)),
            !old(run).finished(),
        ensures
            self.runs(final(run)),
            final(run).start() == old(run).start(),
            final(run).budget() == old(run).budget(),
            final(run).model(final(source).state()) == advance(
                self.costs(),
                self.best(),
                g@,
                old(run).model(old(source).state()),
            ),
            r == match old(run).stack().last() {
                Symbol::Term(t) => Some(t),
                Symbol::Nonterm(_) => None,
            },
            r matches Some(t) ==> (t as nat) < g@.terms(),
            final(run).emitted() == match r {
                Some(t) => old(run).emitted().push(t),
                None => old(run).emitted(),
            },
            self.ahead(final(run)) < self.ahead(old(run)) || (self.ahead(final(run)) == self.ahead(
                old(run),
            ) && final(run).pending() < old(run).pending()),
    {
        let ghost m = g@;
        let ghost costs = self.table.costs();
        let ghost sizes = self.table.sizes();
        let ghost best = self.table.best();
        let ghost a = run.start;
        let ghost stood = form_of(run.emitted@, run.stack@);
        let ghost full = run.stack@;
        let ghost steps = run.steps@;
        let ghost here = run.model(source.state());
        proof {
            reveal(advance);
        }
        let top = run.stack.pop().unwrap();
        let ghost rest = run.stack@;
        proof {
            assert(full =~= rest.push(top));
            assert(rest =~= full.drop_last());
            lemma_total_size_push(sizes, rest, top);
            assert(m.has_symbol(full[full.len() - 1]));
            assert(cost_of(costs, full[full.len() - 1]) is Some);
            assert forall|k: int| 0 <= k < rest.len() implies m.has_symbol(#[trigger] rest[k])
                && cost_of(costs, rest[k]) is Some by {
                assert(rest[k] == full[k]);
            }
        }
        match top {
            Symbol::Term(t) => {
                let ghost before = run.emitted@;
                run.emitted = Ghost(before.push(t));
                proof {
                    assert(form_of(run.emitted@, rest) =~= stood);
                }
                Some(t)
            },
            Symbol::Nonterm(x) => {
                let waiting = self.table.cost_of_form(&run.stack).unwrap();
                let free: u64 = if waiting < run.room {
                    run.room - waiting
                } else {
                    0
                };
                proof {
                    assert(top == full[full.len() - 1]);
                    assert(costs[x as int] is Some);
                    assert(good_entry(m, costs, best, sizes, x as int));
                }
                let p = self.choose_production(g, x, free, source);
                let ghost chosen = fits(costs, m, p as int, x, free);
                let rhs = g.prod_rhs(p);
                let ghost next_total = total_size(sizes, rest) + total_size(sizes, rhs@);
                let ghost room_was = run.room;
                proof {
                    lemma_costed_form(m, costs, best, sizes, rest);
                    lemma_cost_is_size(costs, sizes, rest);
                    if chosen {
                        lemma_costed_form(m, costs, best, sizes, rhs@);
                        lemma_cost_is_size(costs, sizes, rhs@);
                        assert(1 + next_total <= run.room);
                    } else {
                        assert(1 + next_total <= total_size(sizes, full));
                    }
                    m.lemma_prod_in_range(p as int);
                }
                push_reversed(&mut run.stack, rhs);
                if run.room > 0 {
                    run.room = run.room - 1;
                }
                run.steps = Ghost(steps + 1);
                proof {
                    lemma_total_size_concat(sizes, rest, reversed(rhs@));
                    lemma_total_size_reversed(sizes, rhs@);
                    let now = form_of(run.emitted@, run.stack@);
                    let at = run.emitted@.len() as int;
                    assert(stood[at] == top);
                    assert(now =~= stood.subrange(0, at) + rhs@ + stood.subrange(
                        at + 1,
                        stood.len() as int,
                    ));
                    assert(step_at(m, stood, now, at, p as int));
                    assert(step(m, stood, now));
                    assert(derives_in(m, now, now, 0));
                    assert(derives_in(m, stood, now, 1));
                    lemma_derives_in_trans(m, unit(Symbol::Nonterm(a)), stood, now, steps, 1);
                    assert forall|k: int| 0 <= k < run.stack@.len() implies m.has_symbol(
                        #[trigger] run.stack@[k],
                    ) && cost_of(costs, run.stack@[k]) is Some by {
                        if k >= rest.len() {
                            let j = rhs@.len() - 1 - (k - rest.len());
                            assert(run.stack@[k] == rhs@[j]);
                            assert(m.has_symbol(rhs@[j]));
                            assert(cost_of(costs, rhs@[j]) is Some);
                        } else {
                            assert(run.stack@[k] == rest[k]);
                        }
                    }
                    assert(total_size(sizes, run.stack@) == next_total);
                    assert(larger(run.room as nat, next_total) < larger(
                        room_was as nat,
                        total_size(sizes, full),
                    ));
                    assert(free == free_room(costs, rest, room_was));
                }
                None
            },
        }
    }

    /// The next terminal of the sentence of `run`, or nothing where the
    /// sentence is complete: step by step, until a terminal comes off the
    /// stack or the stack is empty.
    pub fn next_terminal(&self, g: &Grammar, run: &mut Generation, source: &mut ChoiceSource) -> (r:
        Option<u32>)
        requires
            self.grammar() == g@,
            self.runs(old(run)),
        ensures
            self.runs(final(run)),
            final(run).start() == old(run).start(),
            final(run).budget() == old(run).budget(),
            next_of(
                self.costs(),
                self.best(),
                g@,
                old(run).model(old(source).state()),
                final(run).model(final(source).state()),
                r,
            ),
            match r {
                Some(t) => (t as nat) < g@.terms() && final(run).emitted() == old(
                    run,
                ).emitted().push(t) && (self.ahead(final(run)) < self.ahead(old(run)) || (
                self.ahead(final(run)) == self.ahead(old(run)) && final(run).pending() < old(
                    run,
                ).pending())),
                None => final(run).finished() && final(run).emitted() == old(run).emitted() && (
                self.ahead(final(run)) < self.ahead(old(run)) || (self.ahead(final(run))
                    == self.ahead(old(run)) && final(run).pending() <= old(run).pending()))
                    && within(
                    g@,
                    old(run).start(),
                    old(run).emitted(),
                    larger(old(run).budget() as nat, self.size(old(run).start())),
                ),
            },
    {
        let ghost costs = self.costs();
        let ghost best = self.best();
        let ghost from = run.model(source.state());
        let ghost done: nat = 0;
        while !run.is_finished()
            invariant
                self.grammar() == g@,
                costs == self.costs(),
                best == self.best(),
                self.runs(run),
                run.start() == old(run).start(),
                run.budget() == old(run).budget(),
                run.emitted() == old(run).emitted(),
                from == old(run).model(old(source).state()),
                expanding(costs, best, g@, from, done),
                run.model(source.state()) == advanced(costs, best, g@, from, done),
                self.ahead(run) < self.ahead(old(run)) || (self.ahead(run) == self.ahead(old(run))
                    && run.pending() <= old(run).pending()),
            decreases self.ahead(run), run.pending(),
        {
            let ghost here = run.model(source.state());
            match self.step(g, run, source) {
                Some(t) => {
                    proof {
                        assert(next_at(
                            costs,
                            best,
                            g@,
                            from,
                            run.model(source.state()),
                            Some(t),
                            done,
                        ));
                    }
                    return Some(t);
                },
                None => {
                    proof {
                        assert(expands_at(costs, best, g@, from, done));
                        done = done + 1;
                    }
                },
            }
        }
        proof {
            self.lemma_finished_is_derived(run);
            assert(next_at(costs, best, g@, from, run.model(source.state()), None, done));
        }
        None
    }

    /// A random sentence of nonterminal `a`, as terminals: every terminal
    /// of a generation that begins with `budget`, until it is complete.
    /// There is no sentence where `a` is no nonterminal of the grammar or
    /// derives no string of terminals; else the sentence is derived from
    /// `a` in no more steps than the budget, or than the shortest known
    /// derivation where that is longer, and so begins with a member of
    /// FIRST(`a`), or is empty, and then `a` is nullable.
    pub fn generate(&self, g: &Grammar, a: u32, budget: u32, source: &mut ChoiceSource) -> (r:
        Option<Vec<u32>>)
        requires
            self.grammar() == g@,
        ensures
            r is Some <==> ((a as nat) < g@.nonterms() && productive(g@, Symbol::Nonterm(a))),
            r matches Some(s) ==> forall|i: int|
                0 <= i < s@.len() ==> (#[trigger] s@[i] as nat) < g@.terms(),
            r is Some ==> within(g@, a, r->0@, larger(budget as nat, self.size(a))),
            r matches Some(s) ==> if s@.len() > 0 {
                first(g@, Symbol::Nonterm(a), s@[0])
            } else {
                nullable(g@, Symbol::Nonterm(a))
            },
            match r {
                Some(s) => produces(
                    self.costs(),
                    self.best(),
                    g@,
                    initial(a, budget, old(source).state()),
                    s@,
                    final(source).state(),
                ),
                None => final(source).state() == old(source).state(),
            },
    {
        let ghost costs = self.costs();
        let ghost best = self.best();
        let ghost from = initial(a, budget, source.state());
        let ghost done: nat = 0;
        let mut run = match self.begin(a, budget) {
            Some(run) => run,
            None => {
                return None;
            },
        };
        let mut out: Vec<u32> = Vec::new();
        let mut going = true;
        while going
            invariant
                self.grammar() == g@,
                self.runs(&run),
                run.start() == a,
                run.budget() == budget,
                out@ == run.emitted(),
                forall|i: int| 0 <= i < out@.len() ==> (#[trigger] out@[i] as nat) < g@.terms(),
                !going ==> within(g@, a, out@, larger(budget as nat, self.size(a))),
                costs == self.costs(),
                best == self.best(),
                from == initial(a, budget, old(source).state()),
                running(costs, best, g@, from, done),
                run.model(source.state()) == advanced(costs, best, g@, from, done),
                !going ==> run.model(source.state()).stack.len() == 0,
            decreases self.ahead(&run), run.pending(), if going { 1nat } else { 0nat },
        {
            let ghost here = run.model(source.state());
            let next = self.next_terminal(g, &mut run, source);
            proof {
                let now = run.model(source.state());
                let n = choose|n: nat| #[trigger] next_at(costs, best, g@, here, now, next, n);
                let more: nat = if next is Some {
                    n + 1
                } else {
                    n
                };
                assert forall|k: nat| k < more implies #[trigger] busy_at(
                    costs,
                    best,
                    g@,
                    here,
                    k,
                ) by {
                    if k < n {
                        assert(expands_at(costs, best, g@, here, k));
                    }
                }
                lemma_running_on(costs, best, g@, from, done, more);
                lemma_advanced_add(costs, best, g@, from, done, more);
                done = done + more;
            }
            match next {
                Some(t) => {
                    out.push(t);
                },
                None => {
                    going = false;
                },
            }
        }
        proof {
            let limit = larger(budget as nat, self.size(a));
            let n = choose|n: nat|
                n <= limit && #[trigger] derives_in(
                    g@,
                    unit(Symbol::Nonterm(a)),
                    terminals(out@),
                    n,
                );
            lemma_sentence_begins_in_first(g@, a, out@);
            assert(produces_at(costs, best, g@, from, out@, source.state(), done));
        }
        Some(out)
    }
}

} // verus!
