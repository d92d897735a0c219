//! LR(0) and SLR(1) parsing: table construction with conflict detection, and
//! the shift-reduce driver.
use vstd::prelude::*;
use crate::automaton::{Automaton, build_automaton};
use crate::analysis::single;
use crate::grammar::{Grammar, views};
use crate::lr_items::{ItemTable, item_len};
use crate::model::GrammarModel;
use crate::symbol::{Symbol, SymbolView};

verus! {

/// Which lookaheads a reduce-ready item reduces on.
#[derive(Clone, Copy, Debug)]
pub enum Mode {
    /// On every lookahead: every symbol but `Start`, and the end of input.
    LR0,
    /// On the FOLLOW set of the item's left-hand side, and the end of input.
    SLR,
}

#[derive(Clone, Copy, Debug)]
/// A table entry. Columns are symbol numbers, and one more column, numbered
/// like the grammar's symbol count, for the end of input.
pub enum Action {
    /// Consume the lookahead and go to the state.
    Shift(usize),
    /// Reduce by alternative `.1` of nonterminal `.0`.
    Reduce(usize, usize),
    /// The input is accepted.
    Accept,
}

/// The two kinds of conflict.
#[derive(Clone, Copy, Debug)]
pub enum ConflictKind {
    ShiftReduce,
    ReduceReduce,
}

#[derive(Clone, Debug)]
/// A table cell claimed twice: in state `state`, on column `column` (symbol
/// `symbol`, or `None` for the end of input), the reduction by alternative
/// `rhs_id` of `lhs` met an entry already there: a shift, or the reduction by
/// the rule `earlier`.
pub struct Conflict {
    pub kind: ConflictKind,
    pub state: usize,
    pub column: usize,
    pub symbol: Option<Symbol>,
    pub lhs: Symbol,
    pub rhs_id: usize,
    pub earlier: Option<(Symbol, usize)>,
}

/// Why an LR table could not be built.
#[derive(Debug)]
pub enum LrBuildError {
    /// The grammar has no nonterminal `Start`.
    NoStart,
    /// Every conflict of the table.
    Conflicts(Vec<Conflict>),
}

/// The label of the augmented start symbol.
pub open spec fn start_label() -> Seq<char> {
    seq!['S', 't', 'a', 'r', 't']
}

/// The augmented start symbol.
pub open spec fn start_symbol() -> SymbolView {
    (start_label(), false)
}

/// The start kernel: the first alternative of `Start`, dot at its beginning.
pub open spec fn start_kernel(items: ItemTable, start: int) -> Seq<bool> {
    Seq::new(items.items@.len(), |u: int| u == items.base@[start]@[0])
}

/// The numbered items and the automaton of a grammar.
pub struct LrAutomaton {
    pub items: ItemTable,
    pub states: Automaton,
    pub start: usize,
}

impl LrAutomaton {
    pub open spec fn ok(&self, m: GrammarModel) -> bool {
        &&& self.items.ok(m)
        &&& self.start < m.n()
        &&& m.syms[self.start as int] == start_symbol()
        &&& self.states.ok(m, self.items.items@, start_kernel(self.items, self.start as int))
    }

    pub open spec fn num_states(&self) -> int {
        self.states.kernels@.len() as int
    }

    /// The kernel of state `i`.
    pub open spec fn kernel(&self, i: int) -> Seq<bool> {
        self.states.kernels@[i]@
    }

    /// The closure of state `i`: the items expansion adds to its kernel.
    pub open spec fn closure(&self, i: int) -> Seq<bool> {
        self.states.closures@[i]@
    }

    /// Item `u` belongs to state `i`: it is in its kernel or its closure.
    pub open spec fn holds(&self, i: int, u: int) -> bool {
        self.kernel(i)[u] || self.closure(i)[u]
    }

    /// Builds the automaton of `g`, seeded with `Start`; `None` when `g` has no
    /// nonterminal `Start`.
    pub fn build(g: &Grammar) -> (r: Option<LrAutomaton>)
        requires
            g.inv(),
        ensures
            r is None <==> !g@.has_symbol(start_symbol()),
            r matches Some(a) ==> a.ok(g@),
    {
        proof {
            g.lemma_wf();
        }
        let start_sym = Symbol::nonterminal("Start");
        proof {
            reveal_strlit("Start");
            assert(start_sym@ == start_symbol());
        }
        let s = match g.symbol_id(&start_sym) {
            Some(s) => s,
            None => {
                return None;
            },
        };
        let items = ItemTable::new(g);
        assert(!g@.is_terminal(s as int));
        assert(g@.is_alt(s as int, 0));
        let seed = items.base[s][0];
        let adj = items.predict_graph(g);
        let kernel = single(items.items.len(), seed);
        assert(kernel@ =~= start_kernel(items, s as int));
        let states = build_automaton(g, &items, &adj, kernel);
        Some(LrAutomaton { items, states, start: s })
    }
}

/// Whether a reduce-ready item with left-hand side `a` reduces on column `c`.
pub open spec fn reduces_on(m: GrammarModel, mode: Mode, start: int, a: int, c: int) -> bool {
    c == m.n() || (0 <= c < m.n() && match mode {
        Mode::LR0 => c != start,
        Mode::SLR => m.in_follow(a, c),
    })
}

/// Item `u` of state `i` is ready to reduce on column `c`.
pub open spec fn reduce_item(m: GrammarModel, aut: LrAutomaton, mode: Mode, i: int, c: int, u: int) -> bool {
    let its = aut.items.items@;
    &&& 0 <= u < its.len()
    &&& aut.holds(i, u)
    &&& its[u].2 == item_len(m, its[u])
    &&& reduces_on(m, mode, aut.start as int, its[u].0 as int, c)
}

/// The entry of cell `(i, c)` before reductions: `Accept` on `Start` in state
/// 0, else the state's move on `c`.
pub open spec fn base_action(m: GrammarModel, aut: LrAutomaton, i: int, c: int) -> Option<Action> {
    if i == 0 && c == aut.start {
        Some(Action::Accept)
    } else if 0 <= c < m.n() && aut.states.shifts@[i]@[c] is Some {
        Some(Action::Shift(aut.states.shifts@[i]@[c]->0))
    } else {
        None
    }
}

/// Cell `(i, c)` is claimed twice: by its base entry and a reduction, or by
/// two reductions.
pub open spec fn has_conflict(m: GrammarModel, aut: LrAutomaton, mode: Mode, i: int, c: int) -> bool {
    ||| (base_action(m, aut, i, c) is Some && exists|u: int| #[trigger] reduce_item(m, aut, mode, i, c, u))
    ||| exists|u1: int, u2: int| u1 != u2 && #[trigger] reduce_item(m, aut, mode, i, c, u1) && #[trigger] reduce_item(m, aut, mode, i, c, u2)
}

/// The entry of cell `(i, c)` when it has no conflict.
pub open spec fn table_entry(m: GrammarModel, aut: LrAutomaton, mode: Mode, i: int, c: int) -> Option<Action> {
    if base_action(m, aut, i, c) is Some {
        base_action(m, aut, i, c)
    } else if exists|u: int| #[trigger] reduce_item(m, aut, mode, i, c, u) {
        let u = choose|u: int| #[trigger] reduce_item(m, aut, mode, i, c, u);
        Some(Action::Reduce(aut.items.items@[u].0, aut.items.items@[u].1))
    } else {
        None
    }
}

/// The symbol of column `c`, or `None` for the end of input.
pub open spec fn column_symbol(m: GrammarModel, c: int) -> Option<SymbolView> {
    if c < m.n() {
        Some(m.syms[c])
    } else {
        None
    }
}

/// The view of an optional symbol.
pub open spec fn opt_view(s: Option<Symbol>) -> Option<SymbolView> {
    match s {
        Some(x) => Some(x@),
        None => None,
    }
}

/// The view of an optional rule.
pub open spec fn rule_view(r: Option<(Symbol, usize)>) -> Option<(SymbolView, usize)> {
    match r {
        Some(x) => Some((x.0@, x.1)),
        None => None,
    }
}

/// Reduce-ready item `u` of state `i` meets an entry already in cell `(i, c)`:
/// the cell's base entry, or the reduction by a reduce-ready item numbered
/// before `u`.
pub open spec fn meets_entry(m: GrammarModel, aut: LrAutomaton, mode: Mode, i: int, c: int, u: int) -> bool {
    &&& reduce_item(m, aut, mode, i, c, u)
    &&& (base_action(m, aut, i, c) is Some || exists|v: int| 0 <= v < u && #[trigger] reduce_item(m, aut, mode, i, c, v))
}

/// `v` is the first reduce-ready item of cell `(i, c)`.
pub open spec fn first_reducer(m: GrammarModel, aut: LrAutomaton, mode: Mode, i: int, c: int, v: int) -> bool {
    &&& reduce_item(m, aut, mode, i, c, v)
    &&& forall|w: int| 0 <= w < v ==> !#[trigger] reduce_item(m, aut, mode, i, c, w)
}

/// `k` records that item `u` of cell `(i, c)` met an entry already there: it
/// names the state, the column and its symbol, and the item's rule; its kind
/// says whether it met a shift; for a met reduction it names that earlier rule.
pub open spec fn records(m: GrammarModel, aut: LrAutomaton, mode: Mode, k: Conflict, i: int, c: int, u: int) -> bool {
    let its = aut.items.items@;
    &&& k.state == i
    &&& k.column == c
    &&& opt_view(k.symbol) == column_symbol(m, c)
    &&& k.lhs@ == m.syms[its[u].0 as int]
    &&& k.rhs_id == its[u].1
    &&& (k.kind is ShiftReduce <==> base_action(m, aut, i, c) matches Some(Action::Shift(_)))
    &&& if base_action(m, aut, i, c) is Some {
        k.earlier is None
    } else {
        exists|v: int| #[trigger] first_reducer(m, aut, mode, i, c, v)
            && rule_view(k.earlier) == Some((m.syms[its[v].0 as int], its[v].1))
    }
}

/// `k` records a real conflict.
pub open spec fn conflict_genuine(m: GrammarModel, aut: LrAutomaton, mode: Mode, k: Conflict) -> bool {
    &&& 0 <= k.state < aut.num_states()
    &&& 0 <= k.column <= m.n()
    &&& exists|u: int| #[trigger] meets_entry(m, aut, mode, k.state as int, k.column as int, u)
        && records(m, aut, mode, k, k.state as int, k.column as int, u)
}

/// Two records name the same cell and rule.
pub open spec fn same_record(k1: Conflict, k2: Conflict) -> bool {
    k1.state == k2.state && k1.column == k2.column && k1.lhs@ == k2.lhs@ && k1.rhs_id == k2.rhs_id
}

/// No two records of `ks` name the same cell and rule.
pub open spec fn records_distinct(ks: Seq<Conflict>) -> bool {
    forall|k1: int, k2: int| 0 <= k1 < ks.len() && 0 <= k2 < ks.len() && k1 != k2 ==> !same_record(#[trigger] ks[k1], #[trigger] ks[k2])
}

/// Every item of cell `(i, c)` that meets an earlier entry has a record in `ks`.
pub open spec fn cell_reported(m: GrammarModel, aut: LrAutomaton, mode: Mode, ks: Seq<Conflict>, i: int, c: int) -> bool {
    forall|u: int| #[trigger] meets_entry(m, aut, mode, i, c, u) ==> exists|k: int| 0 <= k < ks.len() && records(m, aut, mode, #[trigger] ks[k], i, c, u)
}

/// A cell has a conflict exactly when some item meets an earlier entry there.
pub proof fn lemma_conflict_meets(m: GrammarModel, aut: LrAutomaton, mode: Mode, i: int, c: int)
    ensures
        has_conflict(m, aut, mode, i, c) <==> exists|u: int| #[trigger] meets_entry(m, aut, mode, i, c, u),
{
    if has_conflict(m, aut, mode, i, c) {
        if base_action(m, aut, i, c) is Some && exists|u: int| #[trigger] reduce_item(m, aut, mode, i, c, u) {
            let u = choose|u: int| #[trigger] reduce_item(m, aut, mode, i, c, u);
            assert(meets_entry(m, aut, mode, i, c, u));
        } else {
            let (u1, u2) = choose|u1: int, u2: int| u1 != u2 && #[trigger] reduce_item(m, aut, mode, i, c, u1) && #[trigger] reduce_item(m, aut, mode, i, c, u2);
            if u1 < u2 {
                assert(meets_entry(m, aut, mode, i, c, u2));
            } else {
                assert(meets_entry(m, aut, mode, i, c, u1));
            }
        }
    }
    if exists|u: int| #[trigger] meets_entry(m, aut, mode, i, c, u) {
        let u = choose|u: int| #[trigger] meets_entry(m, aut, mode, i, c, u);
        if base_action(m, aut, i, c) is None {
            let v = choose|v: int| 0 <= v < u && #[trigger] reduce_item(m, aut, mode, i, c, v);
            assert(v != u);
        }
    }
}

/// Two reduce-ready items of a cell with the same rule are the same item.
proof fn lemma_reducer_unique(m: GrammarModel, aut: LrAutomaton, mode: Mode, i: int, c: int, u1: int, u2: int)
    requires
        m.wf(),
        aut.ok(m),
        reduce_item(m, aut, mode, i, c, u1),
        reduce_item(m, aut, mode, i, c, u2),
        m.syms[aut.items.items@[u1].0 as int] == m.syms[aut.items.items@[u2].0 as int],
        aut.items.items@[u1].1 == aut.items.items@[u2].1,
    ensures
        u1 == u2,
{
    let its = aut.items.items@;
    assert(crate::lr_items::item_ok(m, its[u1]));
    assert(crate::lr_items::item_ok(m, its[u2]));
    assert(its[u1].0 == its[u2].0);
    assert(aut.items.base@[its[u1].0 as int]@[its[u1].1 as int] + its[u1].2 == u1);
    assert(aut.items.base@[its[u2].0 as int]@[its[u2].1 as int] + its[u2].2 == u2);
}

/// Whether item `u` of state `i` is ready to reduce on column `c`.
fn is_reduce_item(g: &Grammar, aut: &LrAutomaton, mode: Mode, i: usize, c: usize, u: usize) -> (b: bool)
    requires
        g.inv(),
        aut.ok(g@),
        i < aut.num_states(),
        c <= g@.n(),
        u < aut.items.items.len(),
    ensures
        b == reduce_item(g@, *aut, mode, i as int, c as int, u as int),
{
    let ghost m = g@;
    let (a, j, d) = aut.items.items[u];
    assert(crate::lr_items::item_ok(m, aut.items.items@[u as int]));
    assert(aut.states.closures@[i as int].len() == aut.items.items.len());
    assert(aut.states.kernels@[i as int].len() == aut.items.items.len());
    if !(aut.states.kernels[i][u] || aut.states.closures[i][u]) || d != g.rhs_ids(a, j).len() {
        return false;
    }
    let n = g.num_symbols();
    if c == n {
        return true;
    }
    match mode {
        Mode::LR0 => c != aut.start,
        Mode::SLR => g.follow_has(a, c),
    }
}

/// The base entry of cell `(i, c)`.
fn base_of(g: &Grammar, aut: &LrAutomaton, i: usize, c: usize) -> (r: Option<Action>)
    requires
        g.inv(),
        aut.ok(g@),
        i < aut.num_states(),
        c <= g@.n(),
    ensures
        r == base_action(g@, *aut, i as int, c as int),
{
    if i == 0 && c == aut.start {
        return Some(Action::Accept);
    }
    if c < g.num_symbols() {
        assert(aut.states.shifts@[i as int].len() == g@.n());
        if let Some(j) = aut.states.shifts[i][c] {
            return Some(Action::Shift(j));
        }
    }
    None
}

proof fn lemma_no_reduce_on_start(m: GrammarModel, aut: LrAutomaton, mode: Mode, i: int, u: int)
    requires
        m.wf(),
        aut.ok(m),
    ensures
        !reduce_item(m, aut, mode, i, aut.start as int, u),
{
    assert(!m.is_terminal(aut.start as int));
}

/// Fills cell `(i, c)`, recording in `conflicts` each reduce-ready item that
/// meets an entry already there, in item order.
fn cell(g: &Grammar, aut: &LrAutomaton, mode: Mode, i: usize, c: usize, conflicts: &mut Vec<Conflict>) -> (e: Option<Action>)
    requires
        g.inv(),
        aut.ok(g@),
        i < aut.num_states(),
        c <= g@.n(),
        forall|k: int| 0 <= k < old(conflicts).len() ==> conflict_genuine(g@, *aut, mode, #[trigger] old(conflicts)@[k]),
    ensures
        final(conflicts).len() >= old(conflicts).len(),
        final(conflicts)@.subrange(0, old(conflicts).len() as int) == old(conflicts)@,
        forall|k: int| 0 <= k < final(conflicts).len() ==> conflict_genuine(g@, *aut, mode, #[trigger] final(conflicts)@[k]),
        forall|k: int| old(conflicts).len() <= k < final(conflicts).len() ==> (#[trigger] final(conflicts)@[k]).state == i && final(conflicts)@[k].column == c,
        forall|k1: int, k2: int| old(conflicts).len() <= k1 < final(conflicts).len() && old(conflicts).len() <= k2 < final(conflicts).len() && k1 != k2
            ==> !same_record(#[trigger] final(conflicts)@[k1], #[trigger] final(conflicts)@[k2]),
        cell_reported(g@, *aut, mode, final(conflicts)@, i as int, c as int),
        !has_conflict(g@, *aut, mode, i as int, c as int) ==> e == table_entry(g@, *aut, mode, i as int, c as int),
{
    let ghost m = g@;
    let ghost start_len = conflicts.len();
    let ghost start_list = conflicts@;
    proof {
        g.lemma_wf();
    }
    let n = g.num_symbols();
    let base = base_of(g, aut, i, c);
    let mut entry = base;
    let ghost mut first: int = -1;
    let ghost mut us: Seq<int> = Seq::empty();
    let total = aut.items.items.len();
    let mut u: usize = 0;
    while u < total
        invariant
            g.inv(),
            m == g@,
            m.wf(),
            aut.ok(m),
            n == m.n(),
            i < aut.num_states(),
            c <= m.n(),
            total == aut.items.items.len(),
            u <= total,
            base == base_action(m, *aut, i as int, c as int),
            conflicts.len() == start_len + us.len(),
            conflicts@.subrange(0, start_len as int) == start_list,
            forall|k: int| 0 <= k < conflicts.len() ==> conflict_genuine(m, *aut, mode, #[trigger] conflicts@[k]),
            base is Some ==> entry == base,
            base is None ==> (first == -1 <==> entry is None),
            base is None && first != -1 ==> first_reducer(m, *aut, mode, i as int, c as int, first) && first < u
                && entry == Some(Action::Reduce(aut.items.items@[first].0, aut.items.items@[first].1)),
            base is None && first == -1 ==> forall|u2: int| 0 <= u2 < u ==> !#[trigger] reduce_item(m, *aut, mode, i as int, c as int, u2),
            forall|q: int| 0 <= q < us.len() ==> 0 <= #[trigger] us[q] < u && meets_entry(m, *aut, mode, i as int, c as int, us[q])
                && records(m, *aut, mode, conflicts@[start_len + q], i as int, c as int, us[q]),
            forall|q1: int, q2: int| 0 <= q1 < q2 < us.len() ==> #[trigger] us[q1] < #[trigger] us[q2],
            forall|v: int| 0 <= v < u && #[trigger] meets_entry(m, *aut, mode, i as int, c as int, v) ==> exists|q: int| 0 <= q < us.len() && us[q] == v,
        decreases total - u,
    {
        if is_reduce_item(g, aut, mode, i, c, u) {
            let (a, j, _d) = aut.items.items[u];
            assert(crate::lr_items::item_ok(m, aut.items.items@[u as int]));
            let ghost before = conflicts@;
            let symbol = if c < n { Some(g.symbol(c).duplicate()) } else { None };
            match entry {
                Some(Action::Shift(_)) => {
                    conflicts.push(Conflict { kind: ConflictKind::ShiftReduce, state: i, column: c, symbol, lhs: g.symbol(a).duplicate(), rhs_id: j, earlier: None });
                },
                Some(Action::Reduce(a0, j0)) => {
                    let earlier = if base.is_some() {
                        None
                    } else {
                        assert(crate::lr_items::item_ok(m, aut.items.items@[first]));
                        Some((g.symbol(a0).duplicate(), j0))
                    };
                    conflicts.push(Conflict { kind: ConflictKind::ReduceReduce, state: i, column: c, symbol, lhs: g.symbol(a).duplicate(), rhs_id: j, earlier });
                },
                Some(Action::Accept) => {
                    proof {
                        lemma_no_reduce_on_start(m, *aut, mode, i as int, u as int);
                    }
                },
                None => {
                    entry = Some(Action::Reduce(a, j));
                    proof {
                        first = u as int;
                    }
                },
            }
            proof {
                if conflicts.len() > before.len() {
                    let k = conflicts@.last();
                    if base is None {
                        assert(reduce_item(m, *aut, mode, i as int, c as int, first));
                    }
                    assert(meets_entry(m, *aut, mode, i as int, c as int, u as int));
                    assert(records(m, *aut, mode, k, i as int, c as int, u as int));
                    assert(conflict_genuine(m, *aut, mode, k));
                    assert forall|k2: int| 0 <= k2 < conflicts.len() implies conflict_genuine(m, *aut, mode, #[trigger] conflicts@[k2]) by {
                        if k2 < before.len() {
                            assert(conflicts@[k2] == before[k2]);
                        }
                    }
                    assert(conflicts@.subrange(0, start_len as int) =~= before.subrange(0, start_len as int));
                    let old_us = us;
                    us = us.push(u as int);
                    assert forall|q: int| 0 <= q < us.len() implies 0 <= #[trigger] us[q] < u + 1 && meets_entry(m, *aut, mode, i as int, c as int, us[q])
                        && records(m, *aut, mode, conflicts@[start_len + q], i as int, c as int, us[q]) by {
                        if q < old_us.len() {
                            assert(us[q] == old_us[q]);
                            assert(conflicts@[start_len + q] == before[start_len + q]);
                        }
                    }
                    assert forall|v: int| 0 <= v < u + 1 && #[trigger] meets_entry(m, *aut, mode, i as int, c as int, v) implies exists|q: int| 0 <= q < us.len() && us[q] == v by {
                        if v < u {
                            let q = choose|q: int| 0 <= q < old_us.len() && old_us[q] == v;
                            assert(us[q] == v);
                        } else {
                            assert(us[us.len() - 1] == v);
                        }
                    }
                } else {
                    assert(!meets_entry(m, *aut, mode, i as int, c as int, u as int));
                }
            }
        } else {
            proof {
                assert(!meets_entry(m, *aut, mode, i as int, c as int, u as int));
            }
        }
        u = u + 1;
    }
    proof {
        assert forall|k: int| start_len <= k < conflicts.len() implies (#[trigger] conflicts@[k]).state == i && conflicts@[k].column == c by {
            let q = k - start_len;
            assert(records(m, *aut, mode, conflicts@[start_len + q], i as int, c as int, us[q]));
        }
        assert forall|k1: int, k2: int| start_len <= k1 < conflicts.len() && start_len <= k2 < conflicts.len() && k1 != k2
            implies !same_record(#[trigger] conflicts@[k1], #[trigger] conflicts@[k2]) by {
            let q1 = k1 - start_len;
            let q2 = k2 - start_len;
            if same_record(conflicts@[k1], conflicts@[k2]) {
                lemma_reducer_unique(m, *aut, mode, i as int, c as int, us[q1], us[q2]);
                if q1 < q2 {
                    assert(us[q1] < us[q2]);
                } else {
                    assert(us[q2] < us[q1]);
                }
            }
        }
        assert forall|v: int| #[trigger] meets_entry(m, *aut, mode, i as int, c as int, v) implies exists|k: int| 0 <= k < conflicts@.len() && records(m, *aut, mode, #[trigger] conflicts@[k], i as int, c as int, v) by {
            assert(0 <= v < total);
            let q = choose|q: int| 0 <= q < us.len() && us[q] == v;
            assert(records(m, *aut, mode, conflicts@[start_len + q], i as int, c as int, us[q]));
        }
        if !has_conflict(m, *aut, mode, i as int, c as int) && base is None && first != -1 {
            let w = choose|w: int| #[trigger] reduce_item(m, *aut, mode, i as int, c as int, w);
            if w != first {
                assert(has_conflict(m, *aut, mode, i as int, c as int));
            }
        }
    }
    entry
}

/// No cell of the table has a conflict.
pub open spec fn conflict_free(m: GrammarModel, aut: LrAutomaton, mode: Mode) -> bool {
    forall|i: int, c: int| 0 <= i < aut.num_states() && 0 <= c <= m.n() ==> !#[trigger] has_conflict(m, aut, mode, i, c)
}

/// `ks` is the full conflict report: real conflicts only, no two records of
/// one cell and rule, and a record for every item that meets an entry already
/// in its cell.
pub open spec fn conflicts_complete(m: GrammarModel, aut: LrAutomaton, mode: Mode, ks: Seq<Conflict>) -> bool {
    &&& forall|k: int| 0 <= k < ks.len() ==> conflict_genuine(m, aut, mode, #[trigger] ks[k])
    &&& records_distinct(ks)
    &&& forall|i: int, c: int| 0 <= i < aut.num_states() && 0 <= c <= m.n() ==> #[trigger] cell_reported(m, aut, mode, ks, i, c)
}

/// `table` holds, in each cell without a conflict, its entry.
pub open spec fn table_exact(m: GrammarModel, aut: LrAutomaton, mode: Mode, table: Seq<Vec<Option<Action>>>) -> bool {
    &&& table.len() == aut.num_states()
    &&& forall|i: int| 0 <= i < table.len() ==> (#[trigger] table[i]).len() == m.n() + 1
    &&& forall|i: int, c: int| 0 <= i < table.len() && 0 <= c <= m.n() && !has_conflict(m, aut, mode, i, c) ==> #[trigger] table[i]@[c] == table_entry(m, aut, mode, i, c)
}

/// Records named before cell `(i, c)` in row-major order.
pub open spec fn before_cell(k: Conflict, i: int, c: int) -> bool {
    k.state < i || (k.state == i && k.column < c)
}

/// Appending the records of cell `(i, c)` keeps the report sound, distinct and
/// complete for the cells done before.
proof fn lemma_append_cell(m: GrammarModel, aut: LrAutomaton, mode: Mode, before: Seq<Conflict>, after: Seq<Conflict>, i: int, c: int, n: int)
    requires
        after.len() >= before.len(),
        after.subrange(0, before.len() as int) == before,
        records_distinct(before),
        forall|k: int| 0 <= k < before.len() ==> before_cell(#[trigger] before[k], i, c),
        forall|k: int| before.len() <= k < after.len() ==> (#[trigger] after[k]).state == i && after[k].column == c,
        forall|k1: int, k2: int| before.len() <= k1 < after.len() && before.len() <= k2 < after.len() && k1 != k2
            ==> !same_record(#[trigger] after[k1], #[trigger] after[k2]),
        c < n,
    ensures
        records_distinct(after),
        forall|k: int| 0 <= k < after.len() ==> before_cell(#[trigger] after[k], i, c + 1),
        forall|i2: int, c2: int| #[trigger] cell_reported(m, aut, mode, before, i2, c2) ==> cell_reported(m, aut, mode, after, i2, c2),
{
    assert forall|k1: int, k2: int| 0 <= k1 < after.len() && 0 <= k2 < after.len() && k1 != k2 implies !same_record(#[trigger] after[k1], #[trigger] after[k2]) by {
        if k1 < before.len() {
            assert(after[k1] == before[k1]);
        }
        if k2 < before.len() {
            assert(after[k2] == before[k2]);
        }
    }
    assert forall|k: int| 0 <= k < after.len() implies before_cell(#[trigger] after[k], i, c + 1) by {
        if k < before.len() {
            assert(after[k] == before[k]);
        }
    }
    assert forall|i2: int, c2: int| #[trigger] cell_reported(m, aut, mode, before, i2, c2) implies cell_reported(m, aut, mode, after, i2, c2) by {
        assert forall|u: int| #[trigger] meets_entry(m, aut, mode, i2, c2, u) implies exists|k: int| 0 <= k < after.len() && records(m, aut, mode, #[trigger] after[k], i2, c2, u) by {
            let k = choose|k: int| 0 <= k < before.len() && records(m, aut, mode, #[trigger] before[k], i2, c2, u);
            assert(after[k] == before[k]);
        }
    }
}

/// Fills every cell of the table, collecting every conflict.
fn assemble(g: &Grammar, aut: &LrAutomaton, mode: Mode) -> (r: (Vec<Vec<Option<Action>>>, Vec<Conflict>))
    requires
        g.inv(),
        aut.ok(g@),
    ensures
        table_exact(g@, *aut, mode, r.0@),
        conflicts_complete(g@, *aut, mode, r.1@),
{
    let ghost m = g@;
    let n = g.num_symbols();
    let ns = aut.states.kernels.len();
    let mut table: Vec<Vec<Option<Action>>> = Vec::new();
    let mut conflicts: Vec<Conflict> = Vec::new();
    let mut i: usize = 0;
    while i < ns
        invariant
            g.inv(),
            m == g@,
            aut.ok(m),
            n == m.n(),
            ns == aut.num_states(),
            i <= ns,
            table.len() == i,
            forall|i2: int| 0 <= i2 < i ==> (#[trigger] table@[i2]).len() == n + 1,
            forall|i2: int, c: int| 0 <= i2 < i && 0 <= c <= n && !has_conflict(m, *aut, mode, i2, c) ==> #[trigger] table@[i2]@[c] == table_entry(m, *aut, mode, i2, c),
            forall|k: int| 0 <= k < conflicts.len() ==> conflict_genuine(m, *aut, mode, #[trigger] conflicts@[k]),
            records_distinct(conflicts@),
            forall|k: int| 0 <= k < conflicts.len() ==> before_cell(#[trigger] conflicts@[k], i as int, 0),
            forall|i2: int, c: int| 0 <= i2 < i && 0 <= c <= n ==> #[trigger] cell_reported(m, *aut, mode, conflicts@, i2, c),
        decreases ns - i,
    {
        let mut row: Vec<Option<Action>> = Vec::new();
        let mut c: usize = 0;
        while c < n
            invariant
                g.inv(),
                m == g@,
                aut.ok(m),
                n == m.n(),
                ns == aut.num_states(),
                i < ns,
                c <= n,
                row.len() == c,
                forall|c2: int| 0 <= c2 < c && !has_conflict(m, *aut, mode, i as int, c2) ==> #[trigger] row@[c2] == table_entry(m, *aut, mode, i as int, c2),
                forall|k: int| 0 <= k < conflicts.len() ==> conflict_genuine(m, *aut, mode, #[trigger] conflicts@[k]),
                records_distinct(conflicts@),
                forall|k: int| 0 <= k < conflicts.len() ==> before_cell(#[trigger] conflicts@[k], i as int, c as int),
                forall|i2: int, c2: int| 0 <= i2 < i && 0 <= c2 <= n ==> #[trigger] cell_reported(m, *aut, mode, conflicts@, i2, c2),
                forall|c2: int| 0 <= c2 < c ==> #[trigger] cell_reported(m, *aut, mode, conflicts@, i as int, c2),
            decreases n - c,
        {
            let ghost before = conflicts@;
            let e = cell(g, aut, mode, i, c, &mut conflicts);
            proof {
                lemma_append_cell(m, *aut, mode, before, conflicts@, i as int, c as int, n + 1);
                assert forall|i2: int, c2: int| (0 <= i2 < i && 0 <= c2 <= n) || (i2 == i && 0 <= c2 < c + 1) implies #[trigger] cell_reported(m, *aut, mode, conflicts@, i2, c2) by {
                    if i2 < i || c2 < c {
                        assert(cell_reported(m, *aut, mode, before, i2, c2));
                    }
                }
            }
            row.push(e);
            c = c + 1;
        }
        let ghost before = conflicts@;
        let e = cell(g, aut, mode, i, n, &mut conflicts);
        proof {
            lemma_append_cell(m, *aut, mode, before, conflicts@, i as int, n as int, n + 1);
            assert forall|i2: int, c2: int| 0 <= i2 < i + 1 && 0 <= c2 <= n implies #[trigger] cell_reported(m, *aut, mode, conflicts@, i2, c2) by {
                if i2 < i || c2 < n {
                    assert(cell_reported(m, *aut, mode, before, i2, c2));
                }
            }
        }
        row.push(e);
        let ghost old_table = table@;
        table.push(row);
        proof {
            assert forall|i2: int| 0 <= i2 < i + 1 implies (#[trigger] table@[i2]).len() == n + 1 by {
                if i2 < i {
                    assert(table@[i2] == old_table[i2]);
                }
            }
            assert forall|i2: int, c2: int| 0 <= i2 < i + 1 && 0 <= c2 <= n && !has_conflict(m, *aut, mode, i2, c2) implies #[trigger] table@[i2]@[c2] == table_entry(m, *aut, mode, i2, c2) by {
                if i2 < i {
                    assert(table@[i2] == old_table[i2]);
                }
            }
            assert forall|k: int| 0 <= k < conflicts.len() implies before_cell(#[trigger] conflicts@[k], i + 1, 0) by {
                assert(before_cell(conflicts@[k], i as int, n + 1));
            }
        }
        i = i + 1;
    }
    (table, conflicts)
}

/// An LR(0) or SLR(1) parser: a grammar, its automaton, and its table, which
/// has no conflict.
pub struct LRParser {
    grammar: Grammar,
    mode: Mode,
    automaton: LrAutomaton,
    table: Vec<Vec<Option<Action>>>,
}

impl LRParser {
    pub closed spec fn grammar_model(&self) -> GrammarModel {
        self.grammar@
    }

    pub closed spec fn mode_of(&self) -> Mode {
        self.mode
    }

    pub closed spec fn automaton_of(&self) -> LrAutomaton {
        self.automaton
    }

    /// The entry of cell `(i, c)`.
    pub closed spec fn entry(&self, i: int, c: int) -> Option<Action> {
        self.table@[i]@[c]
    }

    /// The grammar is sound, the automaton is its automaton, the table has no
    /// conflict and holds each cell's entry.
    pub closed spec fn inv(&self) -> bool {
        &&& self.grammar.inv()
        &&& self.automaton.ok(self.grammar@)
        &&& conflict_free(self.grammar@, self.automaton, self.mode)
        &&& table_exact(self.grammar@, self.automaton, self.mode, self.table@)
    }

    /// Builds the automaton of `grammar` and its table in `mode`. Fails when
    /// the grammar has no `Start`, or with every conflict of the table.
    pub fn new(grammar: Grammar, mode: Mode) -> (r: Result<LRParser, LrBuildError>)
        requires
            grammar.inv(),
        ensures
            r matches Err(LrBuildError::NoStart) <==> !grammar@.has_symbol(start_symbol()),
            r matches Ok(p) ==> {
                &&& p.inv()
                &&& p.grammar_model() == grammar@
                &&& p.mode_of() == mode
                &&& p.automaton_of().ok(grammar@)
                &&& conflict_free(grammar@, p.automaton_of(), mode)
                &&& forall|i: int, c: int| 0 <= i < p.automaton_of().num_states() && 0 <= c <= grammar@.n()
                    ==> #[trigger] p.entry(i, c) == table_entry(grammar@, p.automaton_of(), mode, i, c)
            },
            r matches Err(LrBuildError::Conflicts(ks)) ==> ks.len() > 0 && exists|aut: LrAutomaton|
                #[trigger] aut.ok(grammar@) && !conflict_free(grammar@, aut, mode)
                && conflicts_complete(grammar@, aut, mode, ks@),
    {
        let automaton = match LrAutomaton::build(&grammar) {
            Some(a) => a,
            None => {
                return Err(LrBuildError::NoStart);
            },
        };
        let (table, conflicts) = assemble(&grammar, &automaton, mode);
        if conflicts.len() > 0 {
            proof {
                let k = conflicts@[0];
                assert(conflict_genuine(grammar@, automaton, mode, k));
                let u = choose|u: int| #[trigger] meets_entry(grammar@, automaton, mode, k.state as int, k.column as int, u)
                    && records(grammar@, automaton, mode, k, k.state as int, k.column as int, u);
                lemma_conflict_meets(grammar@, automaton, mode, k.state as int, k.column as int);
                assert(has_conflict(grammar@, automaton, mode, k.state as int, k.column as int));
            }
            return Err(LrBuildError::Conflicts(conflicts));
        }
        proof {
            assert forall|i: int, c: int| 0 <= i < automaton.num_states() && 0 <= c <= grammar@.n() implies !#[trigger] has_conflict(grammar@, automaton, mode, i, c) by {
                if has_conflict(grammar@, automaton, mode, i, c) {
                    lemma_conflict_meets(grammar@, automaton, mode, i, c);
                    let u = choose|u: int| #[trigger] meets_entry(grammar@, automaton, mode, i, c, u);
                    assert(cell_reported(grammar@, automaton, mode, conflicts@, i, c));
                }
            }
        }
        let p = LRParser { grammar, mode, automaton, table };
        proof {
            assert forall|i: int, c: int| 0 <= i < p.automaton_of().num_states() && 0 <= c <= p.grammar@.n()
                implies #[trigger] p.entry(i, c) == table_entry(p.grammar@, p.automaton_of(), mode, i, c) by {
                assert(!has_conflict(p.grammar@, p.automaton, mode, i, c));
            }
        }
        Ok(p)
    }
}


/// In LR(0) mode, a state that moves on a symbol other than `Start` and holds a
/// reduce-ready item has a shift-reduce conflict in that cell, and a complete
/// conflict report names that state and symbol as a shift-reduce conflict.
pub proof fn lemma_lr0_shift_reduce_reported(
    m: GrammarModel,
    aut: LrAutomaton,
    ks: Seq<Conflict>,
    i: int,
    x: int,
    u: int,
)
    requires
        m.wf(),
        aut.ok(m),
        conflicts_complete(m, aut, Mode::LR0, ks),
        0 <= i < aut.num_states(),
        0 <= x < m.n(),
        x != aut.start,
        aut.states.shifts@[i]@[x] is Some,
        0 <= u < aut.items.items@.len(),
        aut.holds(i, u),
        aut.items.items@[u].2 == item_len(m, aut.items.items@[u]),
    ensures
        has_conflict(m, aut, Mode::LR0, i, x),
        exists|k: int|
            0 <= k < ks.len() && #[trigger] ks[k].state == i && ks[k].column == x && ks[k].kind is ShiftReduce
                && opt_view(ks[k].symbol) == Some(m.syms[x]),
{
    assert(reduce_item(m, aut, Mode::LR0, i, x, u));
    assert(base_action(m, aut, i, x) matches Some(Action::Shift(_)));
    assert(has_conflict(m, aut, Mode::LR0, i, x));
    assert(meets_entry(m, aut, Mode::LR0, i, x, u));
    assert(cell_reported(m, aut, Mode::LR0, ks, i, x));
    let k = choose|k: int| 0 <= k < ks.len() && records(m, aut, Mode::LR0, #[trigger] ks[k], i, x, u);
    assert(records(m, aut, Mode::LR0, ks[k], i, x, u));
}

/// The number of steps after which the drivers give up.
pub const STEP_LIMIT: usize = 1000000000;

/// Why an LR parse failed.
#[derive(Debug)]
pub enum LrParseError {
    /// No table entry for the state and the lookahead (`None`: end of input).
    NoEntry { state: usize, token: Option<Symbol> },
    /// A reduction found on the stack symbols other than its alternative's:
    /// the table does not belong to its grammar. `parse` is proved never to
    /// return it.
    Inconsistent,
    /// The parse ran for `STEP_LIMIT` steps without finishing.
    StepLimit,
}

/// A failure of the LR driver, as mathematics.
pub enum LrFailure {
    NoEntry { state: int, token: Option<SymbolView> },
    Inconsistent,
    StepLimit,
}

impl View for LrParseError {
    type V = LrFailure;

    open spec fn view(&self) -> LrFailure {
        match self {
            LrParseError::NoEntry { state, token } => LrFailure::NoEntry {
                state: *state as int,
                token: match token {
                    Some(s) => Some(s@),
                    None => None,
                },
            },
            LrParseError::Inconsistent => LrFailure::Inconsistent,
            LrParseError::StepLimit => LrFailure::StepLimit,
        }
    }
}

/// A configuration of the LR driver: the stack of (symbol, state) pairs, and
/// the pending input with the next token last.
pub struct LrConfig {
    pub stack: Seq<(SymbolView, int)>,
    pub pending: Seq<SymbolView>,
}

/// The outcome of one step.
pub enum LrStep {
    Next(LrConfig),
    Accepted,
    Failed(LrFailure),
}

/// The current state: that of the top of the stack, or 0.
pub open spec fn top_state(stack: Seq<(SymbolView, int)>) -> int {
    if stack.len() == 0 {
        0
    } else {
        stack.last().1
    }
}

/// The top `k` stack entries carry the symbols of `r`, in order.
pub open spec fn stack_matches(m: GrammarModel, stack: Seq<(SymbolView, int)>, r: Seq<usize>) -> bool {
    &&& stack.len() >= r.len()
    &&& forall|k: int| 0 <= k < r.len() ==> #[trigger] stack[stack.len() - r.len() + k].0 == m.syms[r[k] as int]
}

impl LRParser {
    /// One step of the driver from `cfg`.
    pub open spec fn step(&self, cfg: LrConfig) -> LrStep {
        let m = self.grammar_model();
        let state = top_state(cfg.stack);
        let token = if cfg.pending.len() == 0 { None } else { Some(cfg.pending.last()) };
        let fail = LrStep::Failed(LrFailure::NoEntry { state, token });
        let column = match token {
            None => m.n(),
            Some(s) => if m.has_symbol(s) { m.id_of(s) } else { -1 },
        };
        if column < 0 || !(0 <= state < self.automaton_of().num_states()) {
            fail
        } else {
            match self.entry(state, column) {
                None => fail,
                Some(Action::Accept) => LrStep::Accepted,
                Some(Action::Shift(next)) => match token {
                    Some(s) => LrStep::Next(LrConfig { stack: cfg.stack.push((s, next as int)), pending: cfg.pending.drop_last() }),
                    None => fail,
                },
                Some(Action::Reduce(a, j)) => {
                    let r = m.rhs(a as int, j as int);
                    if m.is_alt(a as int, j as int) && stack_matches(m, cfg.stack, r) {
                        LrStep::Next(LrConfig {
                            stack: cfg.stack.take(cfg.stack.len() - r.len()),
                            pending: cfg.pending.push(m.syms[a as int]),
                        })
                    } else {
                        LrStep::Failed(LrFailure::Inconsistent)
                    }
                },
            }
        }
    }

    /// The result of running the driver from `cfg` for at most `fuel` steps.
    pub open spec fn run(&self, cfg: LrConfig, fuel: nat) -> Result<(), LrFailure>
        decreases fuel,
    {
        if fuel == 0 {
            Err(LrFailure::StepLimit)
        } else {
            match self.step(cfg) {
                LrStep::Next(next) => self.run(next, (fuel - 1) as nat),
                LrStep::Accepted => Ok(()),
                LrStep::Failed(f) => Err(f),
            }
        }
    }
}

/// The views of a sequence of stack entries.
pub open spec fn stack_view(s: Seq<(Symbol, usize)>) -> Seq<(SymbolView, int)> {
    s.map_values(|e: (Symbol, usize)| (e.0@, e.1 as int))
}


/// The input as pending tokens: reversed, so that the next token is last.
pub open spec fn pending_of(input: Seq<Symbol>) -> Seq<SymbolView> {
    Seq::new(input.len(), |k: int| input[input.len() - 1 - k]@)
}

impl LRParser {
    /// Runs the shift-reduce driver on `input`, a sequence of classified
    /// symbols (conventionally ending with an end marker such as `$`).
    /// Reductions feed their left-hand side back as the next token, so goto
    /// moves share the table with shifts.
    pub fn parse(&self, input: &Vec<Symbol>) -> (r: Result<(), LrParseError>)
        requires
            self.inv(),
        ensures
            ({
                let run = self.run(LrConfig { stack: Seq::empty(), pending: pending_of(input@) }, STEP_LIMIT as nat);
                match r {
                    Ok(()) => run is Ok,
                    Err(e) => run == Err::<(), LrFailure>(e@),
                }
            }),
            !(r matches Err(LrParseError::Inconsistent)),
            r is Ok ==> exists|rest: Seq<SymbolView>| #[trigger] self.grammar_model().derives(seq![start_symbol()] + rest, views(input@)),
    {
        let ghost m = self.grammar@;
        proof {
            self.grammar.lemma_wf();
        }
        let ghost init = LrConfig { stack: Seq::empty(), pending: pending_of(input@) };
        proof {
            self.lemma_run_consistent(init, STEP_LIMIT as nat);
            if self.run(init, STEP_LIMIT as nat) is Ok {
                self.lemma_accepted_derives(input@);
            }
        }
        let mut stack: Vec<(Symbol, usize)> = Vec::new();
        let mut pending: Vec<Symbol> = Vec::new();
        let mut k: usize = input.len();
        while k > 0
            invariant
                k <= input.len(),
                pending.len() == input.len() - k,
                forall|q: int| 0 <= q < pending.len() ==> #[trigger] pending@[q]@ == input@[input.len() - 1 - q]@,
            decreases k,
        {
            k = k - 1;
            pending.push(input[k].duplicate());
        }
        assert(views(pending@) =~= pending_of(input@));
        assert(stack_view(stack@) =~= Seq::<(SymbolView, int)>::empty());
        let n = self.grammar.num_symbols();
        let mut steps: usize = 0;
        while steps < STEP_LIMIT
            invariant
                self.inv(),
                m == self.grammar@,
                m.wf(),
                n == m.n(),
                steps <= STEP_LIMIT,
                init == (LrConfig { stack: Seq::empty(), pending: pending_of(input@) }),
                self.run(init, STEP_LIMIT as nat) != Err::<(), LrFailure>(LrFailure::Inconsistent),
                self.run(init, STEP_LIMIT as nat) is Ok ==> exists|rest: Seq<SymbolView>| #[trigger] self.grammar_model().derives(seq![start_symbol()] + rest, views(input@)),
                self.run(init, STEP_LIMIT as nat) == self.run(
                    LrConfig { stack: stack_view(stack@), pending: views(pending@) },
                    (STEP_LIMIT - steps) as nat,
                ),
            decreases STEP_LIMIT - steps,
        {
            let ghost cfg = LrConfig { stack: stack_view(stack@), pending: views(pending@) };
            let ghost fuel = (STEP_LIMIT - steps) as nat;
            assert(self.run(cfg, fuel) == match self.step(cfg) {
                LrStep::Next(next) => self.run(next, (fuel - 1) as nat),
                LrStep::Accepted => Ok(()),
                LrStep::Failed(f) => Err(f),
            });
            let state: usize = if stack.len() == 0 { 0 } else { stack[stack.len() - 1].1 };
            assert(state == top_state(cfg.stack));
            let column: usize = if pending.len() == 0 {
                n
            } else {
                let last = pending.len() - 1;
                assert(cfg.pending.last() == pending@[last as int]@);
                match self.grammar.symbol_id(&pending[last]) {
                    Some(x) => {
                        proof {
                            assert(m.has_symbol(pending@[last as int]@));
                            let y = m.id_of(pending@[last as int]@);
                            assert(m.syms[y] == m.syms[x as int]);
                        }
                        x
                    },
                    None => {
                        let tok = pending[last].duplicate();
                        proof {
                            assert(!m.has_symbol(cfg.pending.last()));
                            assert(self.step(cfg) == LrStep::Failed(LrFailure::NoEntry { state: state as int, token: Some(tok@) }));
                        }
                        return Err(LrParseError::NoEntry { state, token: Some(tok) });
                    },
                }
            };
            if state >= self.table.len() {
                let token = if pending.len() == 0 { None } else { Some(pending[pending.len() - 1].duplicate()) };
                proof {
                    let tv = if cfg.pending.len() == 0 { None } else { Some(cfg.pending.last()) };
                    assert(match token { Some(t) => tv == Some(t@), None => tv is None });
                    assert(self.step(cfg) == LrStep::Failed(LrFailure::NoEntry { state: state as int, token: tv }));
                }
                return Err(LrParseError::NoEntry { state, token });
            }
            assert(self.table@[state as int].len() == n + 1);
            assert(self.entry(state as int, column as int) == self.table@[state as int]@[column as int]);
            match self.table[state][column] {
                None => {
                    let token = if pending.len() == 0 { None } else { Some(pending[pending.len() - 1].duplicate()) };
                    return Err(LrParseError::NoEntry { state, token });
                },
                Some(Action::Accept) => {
                    return Ok(());
                },
                Some(Action::Shift(next)) => {
                    match pending.pop() {
                        Some(tok) => {
                            stack.push((tok, next));
                            proof {
                                assert(stack_view(stack@) =~= cfg.stack.push((tok@, next as int)));
                                assert(views(pending@) =~= cfg.pending.drop_last());
                            }
                        },
                        None => {
                            return Err(LrParseError::NoEntry { state, token: None });
                        },
                    }
                },
                Some(Action::Reduce(a, j)) => {
                    if a >= n || j >= self.grammar.num_alternatives(a) {
                        assert(!m.is_alt(a as int, j as int));
                        assert(self.step(cfg) == LrStep::Failed(LrFailure::Inconsistent));
                        return Err(LrParseError::Inconsistent);
                    }
                    assert(m.is_alt(a as int, j as int));
                    let r = self.grammar.rhs_ids(a, j);
                    let len = r.len();
                    if stack.len() < len {
                        assert(!stack_matches(m, cfg.stack, r@));
                        assert(self.step(cfg) == LrStep::Failed(LrFailure::Inconsistent));
                        return Err(LrParseError::Inconsistent);
                    }
                    let base = stack.len() - len;
                    let mut q: usize = 0;
                    while q < len && stack[base + q].0.same_as(self.grammar.symbol(r[q]))
                        invariant
                            m == self.grammar@,
                            m.wf(),
                            self.grammar.inv(),
                            m.is_alt(a as int, j as int),
                            r@ == m.rhs(a as int, j as int),
                            forall|i: int| 0 <= i < r.len() ==> r@[i] < m.n(),
                            len == r.len(),
                            base + len == stack.len(),
                            q <= len,
                            forall|q2: int| 0 <= q2 < q ==> #[trigger] stack@[base + q2].0@ == m.syms[r@[q2] as int],
                        decreases len - q,
                    {
                        q = q + 1;
                    }
                    if q < len {
                        let same = stack[base + q].0.same_as(self.grammar.symbol(r[q]));
                        proof {
                            assert(!same);
                            assert(stack_view(stack@)[cfg.stack.len() - r@.len() + q] == (stack@[base + q].0@, stack@[base + q].1 as int));
                            assert(cfg.stack[cfg.stack.len() - r@.len() + q].0 != m.syms[r@[q as int] as int]);
                            assert(!stack_matches(m, cfg.stack, r@));
                            assert(self.step(cfg) == LrStep::Failed(LrFailure::Inconsistent));
                        }
                        return Err(LrParseError::Inconsistent);
                    }
                    proof {
                        assert forall|q2: int| 0 <= q2 < r@.len() implies #[trigger] cfg.stack[cfg.stack.len() - r@.len() + q2].0 == m.syms[r@[q2] as int] by {
                            assert(stack@[base + q2].0@ == m.syms[r@[q2] as int]);
                        }
                        assert(stack_matches(m, cfg.stack, r@));
                    }
                    stack.truncate(base);
                    pending.push(self.grammar.symbol(a).duplicate());
                    proof {
                        assert(stack_view(stack@) =~= cfg.stack.take(cfg.stack.len() - r@.len()));
                        assert(views(pending@) =~= cfg.pending.push(m.syms[a as int]));
                    }
                },
            }
            steps = steps + 1;
        }
        Err(LrParseError::StepLimit)
    }
}


impl LRParser {
    /// The grammar the parser was built from.
    pub fn grammar(&self) -> (g: &Grammar)
        requires
            self.inv(),
        ensures
            g.inv(),
            g@ == self.grammar_model(),
    {
        &self.grammar
    }

    /// Number of automaton states.
    pub fn num_states(&self) -> (k: usize)
        requires
            self.inv(),
        ensures
            k == self.automaton_of().num_states(),
    {
        self.table.len()
    }

    /// The table entry of state `state` on column `column` (a symbol number,
    /// or the symbol count for the end of input).
    pub fn action(&self, state: usize, column: usize) -> (a: Option<Action>)
        requires
            self.inv(),
            state < self.automaton_of().num_states(),
            column <= self.grammar_model().n(),
        ensures
            a == self.entry(state as int, column as int),
            a == table_entry(self.grammar_model(), self.automaton_of(), self.mode_of(), state as int, column as int),
    {
        assert(!has_conflict(self.grammar@, self.automaton, self.mode, state as int, column as int));
        self.table[state][column]
    }
}

} // verus!

verus! {

/// The symbols before the dot of item `u` stand on `stack`, ending at position
/// `p`.
pub open spec fn item_on_stack(m: GrammarModel, its: Seq<(usize, usize, usize)>, stack: Seq<(SymbolView, int)>, p: int, u: int) -> bool {
    let d = its[u].2 as int;
    &&& d <= p + 1
    &&& forall|k: int| 0 <= k < d ==> #[trigger] stack[p - d + 1 + k].0 == m.syms[m.rhs(its[u].0 as int, its[u].1 as int)[k] as int]
}

/// Each stack entry holds a state, and the matched part of each kernel item of
/// that state stands on the stack below it.
pub open spec fn stack_consistent(m: GrammarModel, aut: LrAutomaton, stack: Seq<(SymbolView, int)>) -> bool {
    forall|p: int| 0 <= p < stack.len() ==> {
        &&& 0 <= #[trigger] stack[p].1 < aut.num_states()
        &&& forall|u: int| 0 <= u < aut.items.items@.len() && aut.states.kernels@[stack[p].1]@[u] ==> item_on_stack(m, aut.items.items@, stack, p, u)
    }
}

/// An item that closure adds to a kernel has its dot at the start.
proof fn lemma_closure_dot(m: GrammarModel, aut: LrAutomaton, i: int, u: int)
    requires
        m.wf(),
        aut.ok(m),
        0 <= i < aut.num_states(),
        0 <= u < aut.items.items@.len(),
        aut.holds(i, u),
    ensures
        aut.states.kernels@[i]@[u] || aut.items.items@[u].2 == 0,
{
    let its = aut.items.items@;
    let k = aut.states.kernels@[i]@;
    if k[u] {
        return;
    }
    assert(crate::lr_items::in_closure(m, its, k, u));
    let s = choose|s: int| 0 <= s < k.len() && #[trigger] k[s] && crate::reach::reaches(crate::lr_items::predict_rel(m, its), s, u);
    let w = choose|w: Seq<int>| #[trigger] crate::reach::is_walk(crate::lr_items::predict_rel(m, its), w) && w[0] == s && w.last() == u;
    if w.len() > 1 {
        let q = w.len() - 2;
        assert(crate::lr_items::predict_rel(m, its)(w[q], w[q + 1]));
    }
}

/// Every item of state 0's closure has its dot at the start.
proof fn lemma_state0_dots(m: GrammarModel, aut: LrAutomaton, u: int)
    requires
        m.wf(),
        aut.ok(m),
        0 <= u < aut.items.items@.len(),
        aut.holds(0, u),
    ensures
        aut.items.items@[u].2 == 0,
{
    lemma_closure_dot(m, aut, 0, u);
    if aut.states.kernels@[0]@[u] {
        let s = aut.start as int;
        assert(!m.is_terminal(s));
        assert(m.is_alt(s, 0));
        assert(aut.items.items@[aut.items.base@[s]@[0] + 0] == (s as usize, 0usize, 0usize));
    }
}

impl LRParser {
    /// A step from a consistent stack never finds the stack at odds with the
    /// rule it reduces by, and leaves the stack consistent.
    proof fn lemma_step_consistent(&self, cfg: LrConfig)
        requires
            self.inv(),
            stack_consistent(self.grammar@, self.automaton, cfg.stack),
        ensures
            self.step(cfg) != LrStep::Failed(LrFailure::Inconsistent),
            self.step(cfg) matches LrStep::Next(next) ==> stack_consistent(self.grammar@, self.automaton, next.stack),
    {
        let m = self.grammar@;
        let aut = self.automaton;
        let its = aut.items.items@;
        self.grammar.lemma_wf();
        let state = top_state(cfg.stack);
        let token = if cfg.pending.len() == 0 { None } else { Some(cfg.pending.last()) };
        let column = match token {
            None => m.n(),
            Some(s) => if m.has_symbol(s) { m.id_of(s) } else { -1 },
        };
        if column < 0 || !(0 <= state < aut.num_states()) {
            return;
        }
        if cfg.stack.len() > 0 {
            assert(0 <= cfg.stack[cfg.stack.len() - 1].1 < aut.num_states());
        }
        assert(!has_conflict(m, aut, self.mode, state, column));
        let e = self.entry(state, column);
        assert(e == table_entry(m, aut, self.mode, state, column));
        match e {
            Some(Action::Shift(next)) => {
                if let Some(s) = token {
                    let base = base_action(m, aut, state, column);
                    assert(base == e);
                    assert(0 <= column < m.n());
                    assert(aut.states.shifts@[state]@[column] == Some(next));
                    assert(aut.states.moves(m, its, state, column));
                    let ns = cfg.stack.push((s, next as int));
                    let top = cfg.stack.len();
                    assert(m.syms[column] == s);
                    assert forall|p: int| 0 <= p < ns.len() implies {
                        &&& 0 <= #[trigger] ns[p].1 < aut.num_states()
                        &&& forall|u: int| 0 <= u < its.len() && aut.states.kernels@[ns[p].1]@[u] ==> item_on_stack(m, its, ns, p, u)
                    } by {
                        if p < top {
                            assert(ns[p] == cfg.stack[p]);
                            assert forall|u: int| 0 <= u < its.len() && aut.states.kernels@[ns[p].1]@[u] implies item_on_stack(m, its, ns, p, u) by {
                                assert(item_on_stack(m, its, cfg.stack, p, u));
                                let d = its[u].2 as int;
                                assert forall|k: int| 0 <= k < d implies #[trigger] ns[p - d + 1 + k].0 == m.syms[m.rhs(its[u].0 as int, its[u].1 as int)[k] as int] by {
                                    assert(ns[p - d + 1 + k] == cfg.stack[p - d + 1 + k]);
                                }
                            }
                        } else {
                            assert forall|u: int| 0 <= u < its.len() && aut.states.kernels@[ns[p].1]@[u] implies item_on_stack(m, its, ns, p, u) by {
                                assert(crate::lr_items::in_goto(m, its, aut.kernel(state), aut.closure(state), column, u));
                                let v = u - 1;
                                assert(crate::lr_items::item_ok(m, its[v]));
                                let (a, j, dv) = its[v];
                                assert(aut.items.base@[a as int]@[j as int] + dv == v);
                                assert(its[aut.items.base@[a as int]@[j as int] + (dv + 1)] == (a, j, (dv + 1) as usize));
                                assert(its[u] == (a, j, (dv + 1) as usize));
                                let r = m.rhs(a as int, j as int);
                                if dv > 0 {
                                    if cfg.stack.len() == 0 {
                                        lemma_state0_dots(m, aut, v);
                                    } else {
                                        lemma_closure_dot(m, aut, state, v);
                                        assert(item_on_stack(m, its, cfg.stack, top - 1, v));
                                    }
                                }
                                assert forall|k: int| 0 <= k < dv + 1 implies #[trigger] ns[p - (dv + 1) + 1 + k].0 == m.syms[r[k] as int] by {
                                    if k < dv {
                                        assert(ns[p - (dv + 1) + 1 + k] == cfg.stack[(top - 1) - dv + 1 + k]);
                                    } else {
                                        assert(ns[p] == (s, next as int));
                                    }
                                }
                            }
                        }
                    }
                }
            },
            Some(Action::Reduce(a, j)) => {
                assert(base_action(m, aut, state, column) is None);
                let w = choose|w: int| #[trigger] reduce_item(m, aut, self.mode, state, column, w);
                assert(reduce_item(m, aut, self.mode, state, column, w));
                assert(its[w].0 == a && its[w].1 == j);
                assert(crate::lr_items::item_ok(m, its[w]));
                let r = m.rhs(a as int, j as int);
                if r.len() > 0 {
                    if cfg.stack.len() == 0 {
                        lemma_state0_dots(m, aut, w);
                    } else {
                        lemma_closure_dot(m, aut, state, w);
                        let top = cfg.stack.len() - 1;
                        assert(item_on_stack(m, its, cfg.stack, top, w));
                        assert forall|k: int| 0 <= k < r.len() implies #[trigger] cfg.stack[cfg.stack.len() - r.len() + k].0 == m.syms[r[k] as int] by {
                            assert(cfg.stack[top - r.len() + 1 + k].0 == m.syms[r[k] as int]);
                        }
                    }
                }
                assert(stack_matches(m, cfg.stack, r));
                let ns = cfg.stack.take(cfg.stack.len() - r.len());
                assert forall|p: int| 0 <= p < ns.len() implies {
                    &&& 0 <= #[trigger] ns[p].1 < aut.num_states()
                    &&& forall|u: int| 0 <= u < its.len() && aut.states.kernels@[ns[p].1]@[u] ==> item_on_stack(m, its, ns, p, u)
                } by {
                    assert(ns[p] == cfg.stack[p]);
                    assert forall|u: int| 0 <= u < its.len() && aut.states.kernels@[ns[p].1]@[u] implies item_on_stack(m, its, ns, p, u) by {
                        assert(item_on_stack(m, its, cfg.stack, p, u));
                        let d = its[u].2 as int;
                        assert forall|k: int| 0 <= k < d implies #[trigger] ns[p - d + 1 + k].0 == m.syms[m.rhs(its[u].0 as int, its[u].1 as int)[k] as int] by {
                            assert(ns[p - d + 1 + k] == cfg.stack[p - d + 1 + k]);
                        }
                    }
                }
            },
            _ => {},
        }
    }

    /// A run from a consistent stack never ends in an internal inconsistency.
    pub proof fn lemma_run_consistent(&self, cfg: LrConfig, fuel: nat)
        requires
            self.inv(),
            stack_consistent(self.grammar_model(), self.automaton_of(), cfg.stack),
        ensures
            self.run(cfg, fuel) != Err::<(), LrFailure>(LrFailure::Inconsistent),
        decreases fuel,
    {
        if fuel > 0 {
            self.lemma_step_consistent(cfg);
            if let LrStep::Next(next) = self.step(cfg) {
                self.lemma_run_consistent(next, (fuel - 1) as nat);
            }
        }
    }
}

} // verus!

verus! {

/// The symbols on a stack, bottom first.
pub open spec fn stack_symbols(stack: Seq<(SymbolView, int)>) -> Seq<SymbolView> {
    stack.map_values(|e: (SymbolView, int)| e.0)
}

impl LRParser {
    /// What holds of every configuration the driver reaches on `input`: no
    /// stack entry holds state 0, and the stack symbols followed by the
    /// pending tokens derive `input`.
    pub open spec fn reachable_config(&self, input: Seq<SymbolView>, cfg: LrConfig) -> bool {
        &&& forall|p: int| 0 <= p < cfg.stack.len() ==> (#[trigger] cfg.stack[p]).1 != 0
        &&& self.grammar_model().derives(stack_symbols(cfg.stack) + cfg.pending.reverse(), input)
    }

    proof fn lemma_lr_step_keeps(&self, input: Seq<SymbolView>, cfg: LrConfig)
        requires
            self.inv(),
            self.reachable_config(input, cfg),
        ensures
            self.step(cfg) matches LrStep::Next(next) ==> self.reachable_config(input, next),
            self.step(cfg) is Accepted ==> cfg.stack.len() == 0 && cfg.pending.len() > 0
                && self.grammar_model().derives(seq![start_symbol()] + cfg.pending.drop_last().reverse(), input),
    {
        let m = self.grammar@;
        let aut = self.automaton;
        let its = aut.items.items@;
        self.grammar.lemma_wf();
        let state = top_state(cfg.stack);
        let token = if cfg.pending.len() == 0 { None } else { Some(cfg.pending.last()) };
        let column = match token {
            None => m.n(),
            Some(s) => if m.has_symbol(s) { m.id_of(s) } else { -1 },
        };
        if column < 0 || !(0 <= state < aut.num_states()) {
            return;
        }
        assert(!has_conflict(m, aut, self.mode, state, column));
        let e = self.entry(state, column);
        assert(e == table_entry(m, aut, self.mode, state, column));
        let form = stack_symbols(cfg.stack) + cfg.pending.reverse();
        match e {
            Some(Action::Accept) => {
                assert(state == 0 && column == aut.start);
                if cfg.stack.len() > 0 {
                    assert(cfg.stack[cfg.stack.len() - 1].1 != 0);
                }
                if let Some(s) = token {
                    assert(m.syms[m.id_of(s)] == s);
                    assert(cfg.pending.reverse() =~= seq![s] + cfg.pending.drop_last().reverse());
                    assert(form =~= seq![start_symbol()] + cfg.pending.drop_last().reverse());
                } else {
                    assert(m.n() != aut.start);
                }
            },
            Some(Action::Shift(next)) => {
                if let Some(s) = token {
                    assert(base_action(m, aut, state, column) == e);
                    assert(aut.states.shifts@[state]@[column] == Some(next));
                    assert(aut.states.moves(m, its, state, column));
                    let ns = cfg.stack.push((s, next as int));
                    let np = cfg.pending.drop_last();
                    assert(cfg.pending.reverse() =~= seq![s] + np.reverse());
                    assert(stack_symbols(ns) =~= stack_symbols(cfg.stack).push(s));
                    assert(stack_symbols(ns) + np.reverse() =~= form);
                    if next == 0 {
                        let s0 = aut.start as int;
                        assert(!m.is_terminal(s0));
                        assert(m.is_alt(s0, 0));
                        let u0 = aut.items.base@[s0]@[0] as int;
                        assert(its[u0 + 0] == (s0 as usize, 0usize, 0usize));
                        assert(aut.states.kernels@[0]@[u0]);
                        assert(crate::lr_items::in_goto(m, its, aut.kernel(state), aut.closure(state), column, u0));
                        let v = u0 - 1;
                        assert(crate::lr_items::item_ok(m, its[v]));
                        let (a, j, dv) = its[v];
                        assert(aut.items.base@[a as int]@[j as int] + dv == v);
                        assert(its[aut.items.base@[a as int]@[j as int] + (dv + 1)] == (a, j, (dv + 1) as usize));
                    }
                    assert forall|p: int| 0 <= p < ns.len() implies (#[trigger] ns[p]).1 != 0 by {
                        if p < cfg.stack.len() {
                            assert(ns[p] == cfg.stack[p]);
                        }
                    }
                }
            },
            Some(Action::Reduce(a, j)) => {
                let r = m.rhs(a as int, j as int);
                if m.is_alt(a as int, j as int) && stack_matches(m, cfg.stack, r) {
                    let keep = cfg.stack.len() - r.len();
                    let ns = cfg.stack.take(keep);
                    let np = cfg.pending.push(m.syms[a as int]);
                    let form2 = stack_symbols(ns) + np.reverse();
                    let alt = m.alt_view(a as int, j as int);
                    assert(np.reverse() =~= seq![m.syms[a as int]] + cfg.pending.reverse());
                    assert(form2[keep] == m.syms[a as int]);
                    assert(stack_symbols(cfg.stack) =~= stack_symbols(ns) + alt) by {
                        assert forall|x: int| 0 <= x < cfg.stack.len() implies #[trigger] stack_symbols(cfg.stack)[x] == (stack_symbols(ns) + alt)[x] by {
                            if x >= keep {
                                let q = x - keep;
                                assert(cfg.stack[cfg.stack.len() - r.len() + q].0 == m.syms[r[q] as int]);
                            }
                        }
                    }
                    assert(form =~= form2.subrange(0, keep) + alt + form2.subrange(keep + 1, form2.len() as int));
                    assert(m.derive_step(form2, form));
                    m.lemma_derives_prepend(form2, form, input);
                    assert forall|p: int| 0 <= p < ns.len() implies (#[trigger] ns[p]).1 != 0 by {
                        assert(ns[p] == cfg.stack[p]);
                    }
                }
            },
            None => {},
        }
    }

    proof fn lemma_lr_run_derives(&self, input: Seq<SymbolView>, cfg: LrConfig, fuel: nat)
        requires
            self.inv(),
            self.reachable_config(input, cfg),
            self.run(cfg, fuel) is Ok,
        ensures
            exists|rest: Seq<SymbolView>| #[trigger] self.grammar_model().derives(seq![start_symbol()] + rest, input),
        decreases fuel,
    {
        self.lemma_lr_step_keeps(input, cfg);
        match self.step(cfg) {
            LrStep::Next(next) => {
                self.lemma_lr_run_derives(input, next, (fuel - 1) as nat);
            },
            LrStep::Accepted => {
                let rest = cfg.pending.drop_last().reverse();
                assert(self.grammar_model().derives(seq![start_symbol()] + rest, input));
            },
            LrStep::Failed(_) => {},
        }
    }

    /// When the driver accepts `input`, the input derives from `Start`
    /// followed by what the driver left unread (nothing when, as by
    /// convention, the end marker ends both `Start`'s alternative and the
    /// input).
    pub proof fn lemma_accepted_derives(&self, input: Seq<Symbol>)
        requires
            self.inv(),
            self.run(LrConfig { stack: Seq::empty(), pending: pending_of(input) }, STEP_LIMIT as nat) is Ok,
        ensures
            exists|rest: Seq<SymbolView>| #[trigger] self.grammar_model().derives(seq![start_symbol()] + rest, views(input)),
    {
        let iv = views(input);
        let cfg = LrConfig { stack: Seq::empty(), pending: pending_of(input) };
        assert(stack_symbols(cfg.stack) + cfg.pending.reverse() =~= iv);
        self.grammar_model().lemma_derives_refl(iv);
        self.lemma_lr_run_derives(iv, cfg, STEP_LIMIT as nat);
    }
}

} // verus!
