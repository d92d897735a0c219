//! LL(1) parsing: the predict table and the table-driven predictive driver.
use vstd::prelude::*;
use crate::grammar::{Grammar, views};
use crate::lr_parser::{STEP_LIMIT, pending_of, start_symbol};
use crate::model::GrammarModel;
use crate::symbol::{Symbol, SymbolView};

verus! {

/// Terminal `t` begins something that `r` derives.
pub open spec fn first_of_seq(m: GrammarModel, r: Seq<usize>, t: int) -> bool {
    exists|i: int| 0 <= i < r.len() && m.nullable_span(r, 0, i) && #[trigger] m.in_first(r[i] as int, t)
}

/// Terminal `t` is in the predict set of alternative `j` of `a`: it begins
/// something the alternative derives, or the alternative derives the empty
/// sequence and `t` may follow `a`.
pub open spec fn selects(m: GrammarModel, a: int, j: int, t: int) -> bool {
    &&& m.is_alt(a, j)
    &&& 0 <= t < m.n()
    &&& (first_of_seq(m, m.rhs(a, j), t) || (m.nullable_span(m.rhs(a, j), 0, m.rhs(a, j).len() as int) && m.in_follow(a, t)))
}

/// Two alternatives of `a` are predicted by `t`.
pub open spec fn ll_conflict(m: GrammarModel, a: int, t: int) -> bool {
    exists|j1: int, j2: int| j1 != j2 && #[trigger] selects(m, a, j1, t) && #[trigger] selects(m, a, j2, t)
}

/// The grammar is LL(1): no two alternatives of a nonterminal share a
/// predicting terminal.
pub open spec fn is_ll1(m: GrammarModel) -> bool {
    forall|a: int, t: int| 0 <= a < m.n() && 0 <= t < m.n() ==> !#[trigger] ll_conflict(m, a, t)
}

/// The predict-table entry of `(a, t)`: the alternative that `t` predicts.
pub open spec fn predicted(m: GrammarModel, a: int, t: int) -> Option<usize> {
    if exists|j: int| #[trigger] selects(m, a, j, t) {
        Some((choose|j: int| #[trigger] selects(m, a, j, t)) as usize)
    } else {
        None
    }
}

/// Two alternatives of `lhs` are both predicted by `terminal`.
#[derive(Clone, Debug)]
pub struct LlConflict {
    pub lhs: Symbol,
    pub terminal: Symbol,
}

/// Whether `t` is in the predict set of alternative `j` of `a`.
fn select_has(g: &Grammar, a: usize, j: usize, t: usize) -> (b: bool)
    requires
        g.inv(),
        g@.is_alt(a as int, j as int),
        t < g@.n(),
    ensures
        b == selects(g@, a as int, j as int, t as int),
{
    let ghost m = g@;
    proof {
        g.lemma_wf();
    }
    let r = g.rhs_ids(a, j);
    let mut i: usize = 0;
    while i < r.len() && g.is_nullable(r[i]) && !g.first_has(r[i], t)
        invariant
            g.inv(),
            m == g@,
            m.wf(),
            m.is_alt(a as int, j as int),
            r@ == m.rhs(a as int, j as int),
            forall|k: int| 0 <= k < r.len() ==> r@[k] < m.n(),
            t < m.n(),
            i <= r.len(),
            m.nullable_span(r@, 0, i as int),
            forall|k: int| 0 <= k < i ==> !#[trigger] m.in_first(r@[k] as int, t as int),
        decreases r.len() - i,
    {
        i = i + 1;
    }
    if i < r.len() && g.first_has(r[i], t) {
        return true;
    }
    proof {
        assert forall|k: int| 0 <= k < r.len() && m.nullable_span(r@, 0, k) implies !#[trigger] m.in_first(r@[k] as int, t as int) by {
            if k > i {
                assert(m.derives_empty(r@[i as int] as int));
            }
        }
    }
    if i < r.len() {
        return false;
    }
    g.follow_has(a, t)
}

/// An LL(1) parser: a grammar and its predict table, which has no conflict.
pub struct LLParser {
    grammar: Grammar,
    table: Vec<Vec<Option<usize>>>,
}

impl LLParser {
    pub closed spec fn grammar_model(&self) -> GrammarModel {
        self.grammar@
    }

    /// The table entry for nonterminal `a` and lookahead `t`.
    pub closed spec fn entry(&self, a: int, t: int) -> Option<usize> {
        self.table@[a]@[t]
    }

    pub closed spec fn inv(&self) -> bool {
        &&& self.grammar.inv()
        &&& is_ll1(self.grammar@)
        &&& self.table@.len() == self.grammar@.n()
        &&& forall|a: int| 0 <= a < self.grammar@.n() ==> (#[trigger] self.table@[a]).len() == self.grammar@.n()
        &&& forall|a: int, t: int| 0 <= a < self.grammar@.n() && 0 <= t < self.grammar@.n() ==> #[trigger] self.table@[a]@[t] == predicted(self.grammar@, a, t)
        &&& forall|a: int, t: int| 0 <= a < self.grammar@.n() && 0 <= t < self.grammar@.n() ==> (#[trigger] self.table@[a]@[t] matches Some(j) ==> selects(self.grammar@, a, j as int, t))
    }

    /// Builds the predict table of `grammar`. Fails, naming a nonterminal and
    /// a terminal, when two alternatives share that predicting terminal.
    pub fn new(grammar: Grammar) -> (r: Result<LLParser, LlConflict>)
        requires
            grammar.inv(),
        ensures
            r is Ok <==> is_ll1(grammar@),
            r matches Ok(p) ==> p.inv() && p.grammar_model() == grammar@,
            r matches Err(c) ==> grammar@.has_symbol(c.lhs@) && grammar@.has_symbol(c.terminal@)
                && ll_conflict(grammar@, grammar@.id_of(c.lhs@), grammar@.id_of(c.terminal@)),
    {
        let ghost m = grammar@;
        proof {
            grammar.lemma_wf();
        }
        let n = grammar.num_symbols();
        let mut table: Vec<Vec<Option<usize>>> = Vec::new();
        let mut a: usize = 0;
        while a < n
            invariant
                grammar.inv(),
                m == grammar@,
                m.wf(),
                n == m.n(),
                a <= n,
                table.len() == a,
                forall|a2: int| 0 <= a2 < a ==> (#[trigger] table@[a2]).len() == n,
                forall|a2: int, t: int| 0 <= a2 < a && 0 <= t < n ==> !#[trigger] ll_conflict(m, a2, t),
                forall|a2: int, t: int| 0 <= a2 < a && 0 <= t < n ==> #[trigger] table@[a2]@[t] == predicted(m, a2, t),
                forall|a2: int, t: int| 0 <= a2 < a && 0 <= t < n ==> (#[trigger] table@[a2]@[t] matches Some(j) ==> selects(m, a2, j as int, t)),
            decreases n - a,
        {
            let k = grammar.num_alternatives(a);
            let mut row: Vec<Option<usize>> = Vec::new();
            let mut t: usize = 0;
            while t < n
                invariant
                    grammar.inv(),
                    m == grammar@,
                    m.wf(),
                    n == m.n(),
                    a < n,
                    k == m.alts[a as int].len(),
                    t <= n,
                    row.len() == t,
                    forall|t2: int| 0 <= t2 < t ==> !#[trigger] ll_conflict(m, a as int, t2),
                    forall|t2: int| 0 <= t2 < t ==> #[trigger] row@[t2] == predicted(m, a as int, t2),
                    forall|t2: int| 0 <= t2 < t ==> (#[trigger] row@[t2] matches Some(j) ==> selects(m, a as int, j as int, t2)),
                decreases n - t,
            {
                let mut entry: Option<usize> = None;
                let mut j: usize = 0;
                while j < k
                    invariant
                        grammar.inv(),
                        m == grammar@,
                        m.wf(),
                        n == m.n(),
                        a < n,
                        t < n,
                        k == m.alts[a as int].len(),
                        j <= k,
                        entry is None ==> forall|j2: int| 0 <= j2 < j ==> !#[trigger] selects(m, a as int, j2, t as int),
                        entry matches Some(j1) ==> j1 < j && selects(m, a as int, j1 as int, t as int)
                            && forall|j2: int| 0 <= j2 < j && j2 != j1 ==> !#[trigger] selects(m, a as int, j2, t as int),
                    decreases k - j,
                {
                    assert(m.is_alt(a as int, j as int));
                    if select_has(&grammar, a, j, t) {
                        match entry {
                            Some(j1) => {
                                proof {
                                    assert(selects(m, a as int, j1 as int, t as int));
                                    assert(ll_conflict(m, a as int, t as int));
                                    crate::grammar::lemma_id_of(m, a as int);
                                    crate::grammar::lemma_id_of(m, t as int);
                                }
                                let lhs = grammar.symbol(a).duplicate();
                                let terminal = grammar.symbol(t).duplicate();
                                return Err(LlConflict { lhs, terminal });
                            },
                            None => {
                                entry = Some(j);
                            },
                        }
                    }
                    j = j + 1;
                }
                proof {
                    if ll_conflict(m, a as int, t as int) {
                        let (j1, j2) = choose|j1: int, j2: int| j1 != j2 && #[trigger] selects(m, a as int, j1, t as int) && #[trigger] selects(m, a as int, j2, t as int);
                    }
                    match entry {
                        Some(j1) => {
                            let w = choose|w: int| #[trigger] selects(m, a as int, w, t as int);
                            assert(w == j1);
                        },
                        None => {},
                    }
                }
                row.push(entry);
                t = t + 1;
            }
            let ghost old_table = table@;
            table.push(row);
            proof {
                assert forall|a2: int| 0 <= a2 < a + 1 implies (#[trigger] table@[a2]).len() == n by {
                    if a2 < a {
                        assert(table@[a2] == old_table[a2]);
                    }
                }
                assert forall|a2: int, t2: int| 0 <= a2 < a + 1 && 0 <= t2 < n implies #[trigger] table@[a2]@[t2] == predicted(m, a2, t2) by {
                    if a2 < a {
                        assert(table@[a2] == old_table[a2]);
                    }
                }
                assert forall|a2: int, t2: int| 0 <= a2 < a + 1 && 0 <= t2 < n implies (#[trigger] table@[a2]@[t2] matches Some(j) ==> selects(m, a2, j as int, t2)) by {
                    if a2 < a {
                        assert(table@[a2] == old_table[a2]);
                    }
                }
            }
            a = a + 1;
        }
        proof {
            assert forall|a2: int, t: int| 0 <= a2 < m.n() && 0 <= t < m.n() implies !#[trigger] ll_conflict(m, a2, t) by {}
        }
        Ok(LLParser { grammar, table })
    }
}

/// Building the predict table twice from the same grammar gives the same
/// `(nonterminal, terminal) -> alternative` mapping.
pub proof fn lemma_ll_deterministic(first: &LLParser, second: &LLParser)
    requires
        first.inv(),
        second.inv(),
        first.grammar_model() == second.grammar_model(),
    ensures
        forall|a: int, t: int| 0 <= a < first.grammar_model().n() && 0 <= t < first.grammar_model().n()
            ==> #[trigger] first.entry(a, t) == second.entry(a, t),
{
}


/// Why an LL parse failed.
#[derive(Debug)]
pub enum LlParseError {
    /// The input ended while `expected` was still expected.
    UnexpectedEnd { expected: Symbol },
    /// `found` came where `expected` was expected (for a nonterminal: no
    /// alternative of it is predicted by `found`).
    UnexpectedToken { found: Symbol, expected: Symbol },
    /// The parse ran for `STEP_LIMIT` steps without finishing.
    StepLimit,
}

/// A failure of the LL driver, as mathematics.
pub enum LlFailure {
    UnexpectedEnd { expected: SymbolView },
    UnexpectedToken { found: SymbolView, expected: SymbolView },
    StepLimit,
}

impl View for LlParseError {
    type V = LlFailure;

    open spec fn view(&self) -> LlFailure {
        match self {
            LlParseError::UnexpectedEnd { expected } => LlFailure::UnexpectedEnd { expected: expected@ },
            LlParseError::UnexpectedToken { found, expected } => LlFailure::UnexpectedToken { found: found@, expected: expected@ },
            LlParseError::StepLimit => LlFailure::StepLimit,
        }
    }
}

/// A configuration of the LL driver: the expected symbols with the next one
/// last, and the pending input with the next token last.
pub struct LlConfig {
    pub stack: Seq<SymbolView>,
    pub pending: Seq<SymbolView>,
}

/// The outcome of one step.
pub enum LlStep {
    Next(LlConfig),
    Accepted,
    Failed(LlFailure),
}

impl LLParser {
    /// One step of the driver from `cfg`: accept on an empty stack; else match
    /// an expected terminal against the lookahead, or replace an expected
    /// nonterminal by the alternative that the lookahead predicts.
    pub open spec fn step(&self, cfg: LlConfig) -> LlStep {
        let m = self.grammar_model();
        if cfg.stack.len() == 0 {
            LlStep::Accepted
        } else if cfg.pending.len() == 0 {
            LlStep::Failed(LlFailure::UnexpectedEnd { expected: cfg.stack.last() })
        } else {
            let expected = cfg.stack.last();
            let look = cfg.pending.last();
            let fail = LlStep::Failed(LlFailure::UnexpectedToken { found: look, expected });
            if expected.1 {
                if look == expected {
                    LlStep::Next(LlConfig { stack: cfg.stack.drop_last(), pending: cfg.pending.drop_last() })
                } else {
                    fail
                }
            } else if m.has_symbol(expected) && m.has_symbol(look) {
                let a = m.id_of(expected);
                match self.entry(a, m.id_of(look)) {
                    Some(j) => LlStep::Next(LlConfig {
                        stack: cfg.stack.drop_last() + m.alt_view(a, j as int).reverse(),
                        pending: cfg.pending,
                    }),
                    None => fail,
                }
            } else {
                fail
            }
        }
    }

    /// The result of running the driver from `cfg` for at most `fuel` steps.
    pub open spec fn run(&self, cfg: LlConfig, fuel: nat) -> Result<(), LlFailure>
        decreases fuel,
    {
        if fuel == 0 {
            Err(LlFailure::StepLimit)
        } else {
            match self.step(cfg) {
                LlStep::Next(next) => self.run(next, (fuel - 1) as nat),
                LlStep::Accepted => Ok(()),
                LlStep::Failed(f) => Err(f),
            }
        }
    }

    /// Runs the predictive driver on `input`, a sequence of terminal tokens
    /// (conventionally ending with an end marker such as `$`), starting from
    /// the expected symbol `Start`.
    pub fn parse(&self, input: &Vec<Symbol>) -> (r: Result<(), LlParseError>)
        requires
            self.inv(),
        ensures
            ({
                let run = self.run(LlConfig { stack: seq![start_symbol()], pending: pending_of(input@) }, STEP_LIMIT as nat);
                match r {
                    Ok(()) => run is Ok,
                    Err(e) => run == Err::<(), LlFailure>(e@),
                }
            }),
            r is Ok ==> exists|k: int| 0 <= k <= input.len() && #[trigger] self.grammar_model().derives(seq![start_symbol()], views(input@).take(k)),
    {
        let ghost m = self.grammar@;
        proof {
            self.grammar.lemma_wf();
        }
        let ghost init = LlConfig { stack: seq![start_symbol()], pending: pending_of(input@) };
        proof {
            if self.run(init, STEP_LIMIT as nat) is Ok {
                self.lemma_accepted_derives(input@);
            }
        }
        let mut pending: Vec<Symbol> = Vec::new();
        let mut k: usize = input.len();
        while k > 0
            invariant
                k <= input.len(),
                pending.len() == input.len() - k,
                forall|q: int| 0 <= q < pending.len() ==> #[trigger] pending@[q]@ == input@[input.len() - 1 - q]@,
            decreases k,
        {
            k = k - 1;
            pending.push(input[k].duplicate());
        }
        assert(views(pending@) =~= pending_of(input@));
        let mut stack: Vec<Symbol> = Vec::new();
        let start = Symbol::nonterminal("Start");
        proof {
            reveal_strlit("Start");
            assert(start@ == start_symbol());
        }
        stack.push(start);
        assert(views(stack@) =~= seq![start_symbol()]);
        let mut steps: usize = 0;
        while steps < STEP_LIMIT
            invariant
                self.inv(),
                m == self.grammar@,
                m.wf(),
                steps <= STEP_LIMIT,
                init == (LlConfig { stack: seq![start_symbol()], pending: pending_of(input@) }),
                self.run(init, STEP_LIMIT as nat) is Ok ==> exists|k: int| 0 <= k <= input.len() && #[trigger] self.grammar_model().derives(seq![start_symbol()], views(input@).take(k)),
                self.run(init, STEP_LIMIT as nat) == self.run(
                    LlConfig { stack: views(stack@), pending: views(pending@) },
                    (STEP_LIMIT - steps) as nat,
                ),
            decreases STEP_LIMIT - steps,
        {
            let ghost cfg = LlConfig { stack: views(stack@), pending: views(pending@) };
            let ghost fuel = (STEP_LIMIT - steps) as nat;
            assert(self.run(cfg, fuel) == match self.step(cfg) {
                LlStep::Next(next) => self.run(next, (fuel - 1) as nat),
                LlStep::Accepted => Ok(()),
                LlStep::Failed(f) => Err(f),
            });
            let expected = match stack.pop() {
                Some(e) => e,
                None => {
                    return Ok(());
                },
            };
            assert(expected@ == cfg.stack.last());
            assert(views(stack@) =~= cfg.stack.drop_last());
            if pending.len() == 0 {
                return Err(LlParseError::UnexpectedEnd { expected });
            }
            let last = pending.len() - 1;
            assert(pending@[last as int]@ == cfg.pending.last());
            if expected.terminal {
                if pending[last].same_as(&expected) {
                    pending.pop();
                    assert(views(pending@) =~= cfg.pending.drop_last());
                } else {
                    return Err(LlParseError::UnexpectedToken { found: pending[last].duplicate(), expected });
                }
            } else {
                let a = match self.grammar.symbol_id(&expected) {
                    Some(a) => a,
                    None => {
                        return Err(LlParseError::UnexpectedToken { found: pending[last].duplicate(), expected });
                    },
                };
                let t = match self.grammar.symbol_id(&pending[last]) {
                    Some(t) => t,
                    None => {
                        return Err(LlParseError::UnexpectedToken { found: pending[last].duplicate(), expected });
                    },
                };
                proof {
                    let a2 = m.id_of(expected@);
                    assert(m.syms[a2] == m.syms[a as int]);
                    let t2 = m.id_of(pending@[last as int]@);
                    assert(m.syms[t2] == m.syms[t as int]);
                    assert(m.has_symbol(expected@));
                    assert(m.has_symbol(pending@[last as int]@));
                }
                assert(self.table@[a as int].len() == m.n());
                match self.table[a][t] {
                    Some(j) => {
                        let k = self.grammar.num_alternatives(a);
                        proof {
                            assert(self.entry(a as int, t as int) == Some(j));
                            let w = choose|w: int| #[trigger] selects(m, a as int, w, t as int);
                            assert(selects(m, a as int, w, t as int));
                            assert(0 <= w < k);
                            assert(j as int == w);
                        }
                        let r = self.grammar.rhs_ids(a, j);
                        let ghost below = views(stack@);
                        let mut q: usize = r.len();
                        while q > 0
                            invariant
                                m == self.grammar@,
                                m.wf(),
                                self.grammar.inv(),
                                m.is_alt(a as int, j as int),
                                r@ == m.rhs(a as int, j as int),
                                q <= r.len(),
                                views(stack@) == below + m.alt_view(a as int, j as int).reverse().subrange(0, r.len() - q),
                            decreases q,
                        {
                            q = q - 1;
                            assert(r@[q as int] < m.n());
                            let s = self.grammar.symbol(r[q]).duplicate();
                            let ghost before = views(stack@);
                            stack.push(s);
                            proof {
                                let rv = m.alt_view(a as int, j as int).reverse();
                                assert(rv[r.len() - 1 - q] == m.syms[r@[q as int] as int]);
                                assert(views(stack@) =~= before.push(s@));
                                assert(rv.subrange(0, r.len() - q) =~= rv.subrange(0, r.len() - q - 1).push(rv[r.len() - 1 - q]));
                            }
                        }
                        assert(m.alt_view(a as int, j as int).reverse().subrange(0, r.len() as int) =~= m.alt_view(a as int, j as int).reverse());
                    },
                    None => {
                        assert(self.entry(a as int, t as int) is None);
                        return Err(LlParseError::UnexpectedToken { found: pending[last].duplicate(), expected });
                    },
                }
            }
            steps = steps + 1;
        }
        Err(LlParseError::StepLimit)
    }
}


impl LLParser {
    /// The grammar the parser was built from.
    pub fn grammar(&self) -> (g: &Grammar)
        requires
            self.inv(),
        ensures
            g.inv(),
            g@ == self.grammar_model(),
    {
        &self.grammar
    }

    /// The alternative of nonterminal `a` that terminal `t` predicts.
    pub fn predict(&self, a: usize, t: usize) -> (r: Option<usize>)
        requires
            self.inv(),
            a < self.grammar_model().n(),
            t < self.grammar_model().n(),
        ensures
            r == self.entry(a as int, t as int),
            r == predicted(self.grammar_model(), a as int, t as int),
    {
        self.table[a][t]
    }
}

} // verus!

verus! {

impl LLParser {
    /// What holds of every configuration the driver reaches on `input`: the
    /// pending tokens are the input's last ones, and `Start` derives the
    /// consumed tokens followed by the expected symbols.
    pub open spec fn reachable_config(&self, input: Seq<SymbolView>, cfg: LlConfig) -> bool {
        let k = input.len() - cfg.pending.len();
        &&& cfg.pending.len() <= input.len()
        &&& forall|q: int| 0 <= q < cfg.pending.len() ==> #[trigger] cfg.pending[q] == input[input.len() - 1 - q]
        &&& self.grammar_model().derives(seq![start_symbol()], input.take(k) + cfg.stack.reverse())
    }

    proof fn lemma_step_keeps(&self, input: Seq<SymbolView>, cfg: LlConfig)
        requires
            self.inv(),
            self.reachable_config(input, cfg),
        ensures
            self.step(cfg) matches LlStep::Next(next) ==> self.reachable_config(input, next),
            self.step(cfg) is Accepted ==> self.grammar_model().derives(seq![start_symbol()], input.take(input.len() - cfg.pending.len())),
    {
        let m = self.grammar_model();
        self.grammar.lemma_wf();
        let k = input.len() - cfg.pending.len();
        let form = input.take(k) + cfg.stack.reverse();
        if cfg.stack.len() == 0 {
            assert(form =~= input.take(k));
            return;
        }
        if cfg.pending.len() == 0 {
            return;
        }
        let expected = cfg.stack.last();
        let look = cfg.pending.last();
        let rest = cfg.stack.drop_last();
        assert(cfg.stack.reverse() =~= seq![expected] + rest.reverse());
        if expected.1 {
            if look == expected {
                let np = cfg.pending.drop_last();
                let k2 = input.len() - np.len();
                assert(look == input[k]);
                assert(input.take(k2) =~= input.take(k).push(look));
                assert(input.take(k2) + rest.reverse() =~= form);
            }
        } else if m.has_symbol(expected) && m.has_symbol(look) {
            let a = m.id_of(expected);
            match self.entry(a, m.id_of(look)) {
                Some(j) => {
                    let t = m.id_of(look);
                    assert(self.table@[a]@[t] == predicted(m, a, t));
                    assert(selects(m, a, j as int, t));
                    let alt = m.alt_view(a, j as int);
                    let ns = rest + alt.reverse();
                    assert(ns.reverse() =~= alt + rest.reverse());
                    let p = k;
                    let form2 = input.take(k) + ns.reverse();
                    assert(form[p] == m.syms[a]);
                    assert(form2 =~= form.subrange(0, p) + alt + form.subrange(p + 1, form.len() as int));
                    assert(m.derive_step(form, form2));
                    m.lemma_derives_step(seq![start_symbol()], form, form2);
                },
                None => {},
            }
        }
    }

    proof fn lemma_run_derives(&self, input: Seq<SymbolView>, cfg: LlConfig, fuel: nat)
        requires
            self.inv(),
            self.reachable_config(input, cfg),
            self.run(cfg, fuel) is Ok,
        ensures
            exists|k: int| 0 <= k <= input.len() && #[trigger] self.grammar_model().derives(seq![start_symbol()], input.take(k)),
        decreases fuel,
    {
        self.lemma_step_keeps(input, cfg);
        match self.step(cfg) {
            LlStep::Next(next) => {
                self.lemma_run_derives(input, next, (fuel - 1) as nat);
            },
            LlStep::Accepted => {
                let k = input.len() - cfg.pending.len();
                assert(self.grammar_model().derives(seq![start_symbol()], input.take(k)));
            },
            LlStep::Failed(_) => {},
        }
    }

    /// When the driver accepts `input`, `Start` derives the tokens it
    /// consumed, a prefix of `input` (all of it when, as by convention, the
    /// end marker ends both `Start`'s alternative and the input).
    pub proof fn lemma_accepted_derives(&self, input: Seq<Symbol>)
        requires
            self.inv(),
            self.run(LlConfig { stack: seq![start_symbol()], pending: pending_of(input) }, STEP_LIMIT as nat) is Ok,
        ensures
            exists|k: int| 0 <= k <= input.len() && #[trigger] self.grammar_model().derives(seq![start_symbol()], views(input).take(k)),
    {
        let iv = views(input);
        let cfg = LlConfig { stack: seq![start_symbol()], pending: pending_of(input) };
        assert(iv.take(0) + cfg.stack.reverse() =~= seq![start_symbol()]);
        self.grammar_model().lemma_derives_refl(seq![start_symbol()]);
        assert(self.reachable_config(iv, cfg));
        self.lemma_run_derives(iv, cfg, STEP_LIMIT as nat);
    }
}

} // verus!
