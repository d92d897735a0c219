//! Grammars: rule blocks, the grammar type with its analysis, and queries on
//! symbols.
use vstd::prelude::*;
use crate::analysis::{analysis_input, compute_nullable, first_table, follow_table, lemma_push_contains, lemma_rhs_view};
use crate::model::{GrammarModel, RuleView, block_mentions, rule_alts, rules_acceptable, rules_mention};
use crate::reach::{is_walk, reaches};
use crate::symbol::{Symbol, SymbolView};

verus! {

/// One rule block `lhs -> alt | alt | ... ;`.
pub struct RuleBlock {
    pub lhs: Symbol,
    pub alts: Vec<Vec<Symbol>>,
}

/// The views of a sequence of symbols.
pub open spec fn views(v: Seq<Symbol>) -> Seq<SymbolView> {
    v.map_values(|s: Symbol| s@)
}

impl View for RuleBlock {
    type V = RuleView;

    open spec fn view(&self) -> RuleView {
        (self.lhs@, self.alts@.map_values(|alt: Vec<Symbol>| views(alt@)))
    }
}

/// The views of a sequence of rule blocks.
pub open spec fn blocks_view(rules: Seq<RuleBlock>) -> Seq<RuleView> {
    rules.map_values(|b: RuleBlock| b@)
}

/// Why a grammar could not be built.
#[derive(Debug)]
pub enum GrammarError {
    /// A rule block has a terminal as its left-hand side.
    TerminalHead(Symbol),
    /// A nonterminal occurs, but no rule block gives it an alternative.
    Undefined(Symbol),
    /// The rule text is malformed: in rule block number `block` (counting
    /// from 0), `expected` was required.
    Syntax { block: usize, expected: String },
}

/// No two symbols of `v` are equal.
pub open spec fn distinct_symbols(v: Seq<SymbolView>) -> bool {
    forall|x: int, y: int| 0 <= x < v.len() && 0 <= y < v.len() && x != y ==> #[trigger] v[x] != #[trigger] v[y]
}

/// Where `s` stands in `symbols`, if it does.
pub(crate) fn index_of(symbols: &Vec<Symbol>, s: &Symbol) -> (r: Option<usize>)
    ensures
        r matches Some(i) ==> i < symbols.len() && symbols[i as int]@ == s@,
        r is None ==> forall|i: int| 0 <= i < symbols.len() ==> symbols[i]@ != s@,
{
    let mut i: usize = 0;
    while i < symbols.len()
        invariant
            i <= symbols.len(),
            forall|k: int| 0 <= k < i ==> symbols[k]@ != s@,
        decreases symbols.len() - i,
    {
        if symbols[i].same_as(s) {
            return Some(i);
        }
        i = i + 1;
    }
    None
}

/// Adds `s` to `symbols` unless it is there already.
fn intern(symbols: &mut Vec<Symbol>, s: &Symbol)
    requires
        distinct_symbols(views(old(symbols)@)),
    ensures
        distinct_symbols(views(final(symbols)@)),
        forall|t: SymbolView| views(final(symbols)@).contains(t) <==> (views(old(symbols)@).contains(t) || t == s@),
{
    let ghost start = views(symbols@);
    match index_of(symbols, s) {
        Some(i) => {
            proof {
                assert(views(symbols@)[i as int] == s@);
            }
        },
        None => {
            symbols.push(s.duplicate());
            proof {
                let now = views(symbols@);
                assert(now =~= start.push(s@));
                assert forall|t: SymbolView| now.contains(t) <==> (start.contains(t) || t == s@) by {
                    if now.contains(t) {
                        let k = choose|k: int| 0 <= k < now.len() && now[k] == t;
                        if k < start.len() {
                            assert(start[k] == t);
                        }
                    }
                    if start.contains(t) {
                        let k = choose|k: int| 0 <= k < start.len() && start[k] == t;
                        assert(now[k] == t);
                    }
                    if t == s@ {
                        assert(now[start.len() as int] == t);
                    }
                }
            }
        },
    }
}

/// The vocabulary of the rule blocks: each symbol that occurs, once.
fn vocabulary(rules: &Vec<RuleBlock>) -> (symbols: Vec<Symbol>)
    ensures
        distinct_symbols(views(symbols@)),
        forall|t: SymbolView| views(symbols@).contains(t) <==> rules_mention(blocks_view(rules@), t),
{
    let ghost rv = blocks_view(rules@);
    let mut symbols: Vec<Symbol> = Vec::new();
    let mut r: usize = 0;
    while r < rules.len()
        invariant
            rv == blocks_view(rules@),
            r <= rules.len(),
            distinct_symbols(views(symbols@)),
            forall|t: SymbolView| views(symbols@).contains(t) <==> exists|r2: int| 0 <= r2 < r && #[trigger] block_mentions(rv[r2], t),
        decreases rules.len() - r,
    {
        let block = &rules[r];
        assert(rv[r as int] == block@);
        intern(&mut symbols, &block.lhs);
        let mut j: usize = 0;
        while j < block.alts.len()
            invariant
                rv == blocks_view(rules@),
                r < rules.len(),
                block == &rules[r as int],
                rv[r as int] == block@,
                j <= block.alts.len(),
                distinct_symbols(views(symbols@)),
                forall|t: SymbolView| views(symbols@).contains(t) <==> (
                    (exists|r2: int| 0 <= r2 < r && #[trigger] block_mentions(rv[r2], t))
                    || t == block.lhs@
                    || exists|j2: int, i2: int| 0 <= j2 < j && 0 <= i2 < block.alts[j2]@.len() && #[trigger] block.alts[j2]@[i2]@ == t),
            decreases block.alts.len() - j,
        {
            let alt = &block.alts[j];
            let mut i: usize = 0;
            while i < alt.len()
                invariant
                    rv == blocks_view(rules@),
                    r < rules.len(),
                    block == &rules[r as int],
                    j < block.alts.len(),
                    alt == &block.alts[j as int],
                    i <= alt.len(),
                    distinct_symbols(views(symbols@)),
                    forall|t: SymbolView| views(symbols@).contains(t) <==> (
                        (exists|r2: int| 0 <= r2 < r && #[trigger] block_mentions(rv[r2], t))
                        || t == block.lhs@
                        || (exists|j2: int, i2: int| 0 <= j2 < j && 0 <= i2 < block.alts[j2]@.len() && #[trigger] block.alts[j2]@[i2]@ == t)
                        || exists|i2: int| 0 <= i2 < i && #[trigger] alt@[i2]@ == t),
                decreases alt.len() - i,
            {
                intern(&mut symbols, &alt[i]);
                proof {
                    assert forall|t: SymbolView| views(symbols@).contains(t) <==> (
                        (exists|r2: int| 0 <= r2 < r && #[trigger] block_mentions(rv[r2], t))
                        || t == block.lhs@
                        || (exists|j2: int, i2: int| 0 <= j2 < j && 0 <= i2 < block.alts[j2]@.len() && #[trigger] block.alts[j2]@[i2]@ == t)
                        || exists|i2: int| 0 <= i2 < i + 1 && #[trigger] alt@[i2]@ == t) by {
                        if exists|i2: int| 0 <= i2 < i + 1 && #[trigger] alt@[i2]@ == t {
                            let i2 = choose|i2: int| 0 <= i2 < i + 1 && #[trigger] alt@[i2]@ == t;
                            if i2 < i {
                                assert(exists|i3: int| 0 <= i3 < i && #[trigger] alt@[i3]@ == t);
                            }
                        }
                    }
                }
                i = i + 1;
            }
            proof {
                assert forall|t: SymbolView| views(symbols@).contains(t) <==> (
                    (exists|r2: int| 0 <= r2 < r && #[trigger] block_mentions(rv[r2], t))
                    || t == block.lhs@
                    || exists|j2: int, i2: int| 0 <= j2 < j + 1 && 0 <= i2 < block.alts[j2]@.len() && #[trigger] block.alts[j2]@[i2]@ == t) by {
                    if exists|i2: int| 0 <= i2 < alt.len() && #[trigger] alt@[i2]@ == t {
                        let i2 = choose|i2: int| 0 <= i2 < alt.len() && #[trigger] alt@[i2]@ == t;
                        assert(block.alts[j as int]@[i2]@ == t);
                    }
                    if exists|j2: int, i2: int| 0 <= j2 < j + 1 && 0 <= i2 < block.alts[j2]@.len() && #[trigger] block.alts[j2]@[i2]@ == t {
                        let (j2, i2) = choose|j2: int, i2: int| 0 <= j2 < j + 1 && 0 <= i2 < block.alts[j2]@.len() && #[trigger] block.alts[j2]@[i2]@ == t;
                        if j2 == j {
                            assert(alt@[i2]@ == t);
                        }
                    }
                }
            }
            j = j + 1;
        }
        proof {
            assert forall|t: SymbolView| views(symbols@).contains(t) <==> exists|r2: int| 0 <= r2 < r + 1 && #[trigger] block_mentions(rv[r2], t) by {
                let b = rv[r as int];
                assert(b.1.len() == block.alts.len());
                if t == block.lhs@ {
                    assert(block_mentions(rv[r as int], t));
                }
                if exists|j2: int, i2: int| 0 <= j2 < block.alts.len() && 0 <= i2 < block.alts[j2]@.len() && #[trigger] block.alts[j2]@[i2]@ == t {
                    let (j2, i2) = choose|j2: int, i2: int| 0 <= j2 < block.alts.len() && 0 <= i2 < block.alts[j2]@.len() && #[trigger] block.alts[j2]@[i2]@ == t;
                    assert(b.1[j2][i2] == t);
                    assert(block_mentions(rv[r as int], t));
                }
                if exists|r2: int| 0 <= r2 < r + 1 && #[trigger] block_mentions(rv[r2], t) {
                    let r2 = choose|r2: int| 0 <= r2 < r + 1 && #[trigger] block_mentions(rv[r2], t);
                    if r2 == r && t != block.lhs@ {
                        let (j2, i2) = choose|j2: int, i2: int| 0 <= j2 < b.1.len() && 0 <= i2 < b.1[j2].len() && #[trigger] b.1[j2][i2] == t;
                        assert(block.alts[j2]@[i2]@ == t);
                    }
                }
            }
        }
        r = r + 1;
    }
    symbols
}


/// The ids of the symbols of `alt`, each of which stands in `symbols`.
fn symbol_ids(symbols: &Vec<Symbol>, alt: &Vec<Symbol>) -> (ids: Vec<usize>)
    requires
        forall|i: int| 0 <= i < alt.len() ==> views(symbols@).contains(#[trigger] alt@[i]@),
    ensures
        ids.len() == alt.len(),
        forall|i: int| 0 <= i < alt.len() ==> ids[i] < symbols.len() && symbols@[ids[i] as int]@ == alt@[i]@,
{
    let mut ids: Vec<usize> = Vec::new();
    let mut i: usize = 0;
    while i < alt.len()
        invariant
            i <= alt.len(),
            ids.len() == i,
            forall|k: int| 0 <= k < alt.len() ==> views(symbols@).contains(#[trigger] alt@[k]@),
            forall|k: int| 0 <= k < i ==> ids[k] < symbols.len() && symbols@[ids[k] as int]@ == alt@[k]@,
        decreases alt.len() - i,
    {
        match index_of(symbols, &alt[i]) {
            Some(x) => {
                ids.push(x);
            },
            None => {
                proof {
                    assert(views(symbols@).contains(alt@[i as int]@));
                    let k = choose|k: int| 0 <= k < views(symbols@).len() && views(symbols@)[k] == alt@[i as int]@;
                    assert(symbols@[k]@ == alt@[i as int]@);
                }
                ids.push(0);
            },
        }
        i = i + 1;
    }
    ids
}

/// The alternatives of `symbols[x]`, gathered from every block for it, in order.
fn alternatives_of(symbols: &Vec<Symbol>, rules: &Vec<RuleBlock>, x: usize) -> (alts: Vec<Vec<usize>>)
    requires
        x < symbols.len(),
        forall|t: SymbolView| rules_mention(blocks_view(rules@), t) ==> views(symbols@).contains(t),
    ensures
        Seq::new(alts.len() as nat, |j: int| alts[j]@.map_values(|id: usize| views(symbols@)[id as int]))
            == rule_alts(blocks_view(rules@), symbols[x as int]@),
        forall|j: int, i: int| 0 <= j < alts.len() && 0 <= i < alts[j].len() ==> #[trigger] alts[j]@[i] < symbols.len(),
{
    let ghost rv = blocks_view(rules@);
    let ghost s = symbols[x as int]@;
    let ghost sv = views(symbols@);
    let mut alts: Vec<Vec<usize>> = Vec::new();
    let ghost mut acc: Seq<Seq<SymbolView>> = Seq::empty();
    let mut r: usize = 0;
    while r < rules.len()
        invariant
            rv == blocks_view(rules@),
            sv == views(symbols@),
            s == symbols[x as int]@,
            x < symbols.len(),
            forall|t: SymbolView| rules_mention(rv, t) ==> sv.contains(t),
            r <= rules.len(),
            acc == rule_alts(rv.take(r as int), s),
            acc.len() == alts.len(),
            forall|j: int| 0 <= j < alts.len() ==> (#[trigger] alts[j])@.map_values(|id: usize| sv[id as int]) == acc[j],
            forall|j: int, i: int| 0 <= j < alts.len() && 0 <= i < alts[j].len() ==> #[trigger] alts[j]@[i] < symbols.len(),
        decreases rules.len() - r,
    {
        let block = &rules[r];
        assert(rv[r as int] == block@);
        assert(rv.take(r + 1).drop_last() =~= rv.take(r as int));
        assert(rv.take(r + 1).last() == rv[r as int]);
        if block.lhs.same_as(&symbols[x]) {
            let ghost acc0 = acc;
            let mut j: usize = 0;
            while j < block.alts.len()
                invariant
                    rv == blocks_view(rules@),
                    sv == views(symbols@),
                    s == symbols[x as int]@,
                    forall|t: SymbolView| rules_mention(rv, t) ==> sv.contains(t),
                    r < rules.len(),
                    block == &rules[r as int],
                    rv[r as int] == block@,
                    j <= block.alts.len(),
                    acc == acc0 + block@.1.take(j as int),
                    acc.len() == alts.len(),
                    forall|k: int| 0 <= k < alts.len() ==> (#[trigger] alts[k])@.map_values(|id: usize| sv[id as int]) == acc[k],
                    forall|k: int, i: int| 0 <= k < alts.len() && 0 <= i < alts[k].len() ==> #[trigger] alts[k]@[i] < symbols.len(),
                decreases block.alts.len() - j,
            {
                let alt = &block.alts[j];
                proof {
                    assert forall|i: int| 0 <= i < alt.len() implies sv.contains(#[trigger] alt@[i]@) by {
                        assert(rv[r as int].1[j as int][i] == alt@[i]@);
                        assert(block_mentions(rv[r as int], alt@[i]@));
                        assert(rules_mention(rv, alt@[i]@));
                    }
                }
                let ids = symbol_ids(symbols, alt);
                proof {
                    assert(ids@.map_values(|id: usize| sv[id as int]) =~= block@.1[j as int]);
                    acc = acc + seq![block@.1[j as int]];
                    assert(block@.1.take(j + 1) =~= block@.1.take(j as int) + seq![block@.1[j as int]]);
                }
                alts.push(ids);
                j = j + 1;
            }
            assert(block@.1.take(j as int) =~= block@.1);
        }
        r = r + 1;
    }
    assert(rv.take(rules.len() as int) =~= rv);
    assert(Seq::new(alts.len() as nat, |j: int| alts[j]@.map_values(|id: usize| sv[id as int])) =~= acc);
    alts
}

/// A symbol that heads no block has no alternatives.
proof fn lemma_rule_alts_absent(rules: Seq<RuleView>, s: SymbolView)
    requires
        forall|r: int| 0 <= r < rules.len() ==> (#[trigger] rules[r]).0 != s,
    ensures
        rule_alts(rules, s).len() == 0,
    decreases rules.len(),
{
    if rules.len() > 0 {
        lemma_rule_alts_absent(rules.drop_last(), s);
    }
}


/// A context-free grammar with its analysis: the nullable set and the FIRST and
/// FOLLOW sets, computed once when it is built. Symbols are numbered; symbol
/// `x` is `self@.syms[x]`.
pub struct Grammar {
    symbols: Vec<Symbol>,
    alts: Vec<Vec<Vec<usize>>>,
    nullable: Vec<bool>,
    first: Vec<Vec<bool>>,
    follow: Vec<Vec<bool>>,
}

impl View for Grammar {
    type V = GrammarModel;

    closed spec fn view(&self) -> GrammarModel {
        GrammarModel { syms: views(self.symbols@), alts: self.alts.deep_view() }
    }
}

/// `table` holds `n` rows of `n` flags.
pub open spec fn square(table: Seq<Vec<bool>>, n: int) -> bool {
    &&& table.len() == n
    &&& forall|x: int| 0 <= x < n ==> (#[trigger] table[x]).len() == n
}

impl Grammar {
    /// The grammar is well formed and its tables hold its analysis.
    pub closed spec fn inv(&self) -> bool {
        let m = self@;
        &&& analysis_input(m, &self.alts, &self.nullable)
        &&& square(self.first@, m.n())
        &&& square(self.follow@, m.n())
        &&& forall|x: int, t: int| 0 <= x < m.n() && 0 <= t < m.n() ==> (self.first[x][t] <==> m.in_first(x, t))
        &&& forall|x: int, t: int| 0 <= x < m.n() && 0 <= t < m.n() ==> (self.follow[x][t] <==> m.in_follow(x, t))
    }

    /// Builds a grammar from rule blocks. Blocks for the same left-hand side are
    /// merged, their alternatives kept in order. Fails when a block is headed by
    /// a terminal, or when a nonterminal occurs that no block defines.
    pub fn from_rules(rules: &Vec<RuleBlock>) -> (r: Result<Grammar, GrammarError>)
        ensures
            r is Ok <==> rules_acceptable(blocks_view(rules@)),
            r matches Ok(g) ==> {
                &&& g.inv()
                &&& forall|s: SymbolView| g@.has_symbol(s) <==> rules_mention(blocks_view(rules@), s)
                &&& forall|x: int| 0 <= x < g@.n() ==> #[trigger] g@.alts_view(x) == rule_alts(blocks_view(rules@), g@.syms[x])
            },
            r matches Err(GrammarError::TerminalHead(s)) ==> s@.1 && exists|k: int|
                0 <= k < rules.len() && (#[trigger] blocks_view(rules@)[k]).0 == s@,
            r matches Err(GrammarError::Undefined(s)) ==> !s@.1 && rules_mention(blocks_view(rules@), s@)
                && rule_alts(blocks_view(rules@), s@).len() == 0,
            !(r matches Err(GrammarError::Syntax { .. })),
    {
        let ghost rv = blocks_view(rules@);
        let symbols = vocabulary(rules);
        let ghost sv = views(symbols@);
        let mut k: usize = 0;
        while k < rules.len()
            invariant
                rv == blocks_view(rules@),
                k <= rules.len(),
                forall|k2: int| 0 <= k2 < k ==> !(#[trigger] rv[k2]).0.1,
            decreases rules.len() - k,
        {
            assert(rv[k as int] == rules[k as int]@);
            if rules[k].lhs.terminal {
                return Err(GrammarError::TerminalHead(rules[k].lhs.duplicate()));
            }
            k = k + 1;
        }
        let n = symbols.len();
        let mut alts: Vec<Vec<Vec<usize>>> = Vec::new();
        let mut x: usize = 0;
        while x < n
            invariant
                rv == blocks_view(rules@),
                sv == views(symbols@),
                n == symbols.len(),
                distinct_symbols(sv),
                forall|t: SymbolView| sv.contains(t) <==> rules_mention(rv, t),
                forall|k2: int| 0 <= k2 < rules.len() ==> !(#[trigger] rv[k2]).0.1,
                x <= n,
                alts.len() == x,
                forall|x2: int| 0 <= x2 < x ==> Seq::new(alts[x2].len() as nat, |j: int| alts[x2][j]@.map_values(|id: usize| sv[id as int]))
                    == rule_alts(rv, #[trigger] sv[x2]),
                forall|x2: int, j: int, i: int| 0 <= x2 < x && 0 <= j < alts[x2].len() && 0 <= i < alts[x2][j].len()
                    ==> #[trigger] alts[x2][j]@[i] < n,
                forall|x2: int| 0 <= x2 < x ==> (#[trigger] sv[x2].1 <==> alts[x2].len() == 0),
            decreases n - x,
        {
            let ax = alternatives_of(&symbols, rules, x);
            assert(sv[x as int] == symbols[x as int]@);
            if ax.len() == 0 && !symbols[x].terminal {
                proof {
                    assert(sv.contains(sv[x as int]));
                }
                return Err(GrammarError::Undefined(symbols[x].duplicate()));
            }
            proof {
                if symbols[x as int]@.1 {
                    assert forall|k2: int| 0 <= k2 < rv.len() implies (#[trigger] rv[k2]).0 != symbols[x as int]@ by {
                        assert(!rv[k2].0.1);
                    }
                    lemma_rule_alts_absent(rv, symbols[x as int]@);
                    assert(ax.len() == 0);
                }
            }
            alts.push(ax);
            x = x + 1;
        }
        let ghost m = GrammarModel { syms: sv, alts: alts.deep_view() };
        proof {
            assert forall|a: int, j: int| 0 <= a < n && 0 <= j < alts[a].len() implies #[trigger] m.alts[a][j] == alts[a][j]@ by {
                assert(m.alts[a][j] =~= alts[a][j]@);
            }
            assert(m.wf());
            assert forall|a: int| 0 <= a < n implies #[trigger] m.alts_view(a) == rule_alts(rv, m.syms[a]) by {
                assert(m.alts_view(a) =~= Seq::new(alts[a].len() as nat, |j: int| alts[a][j]@.map_values(|id: usize| sv[id as int])));
            }
            assert forall|s: SymbolView| m.has_symbol(s) <==> rules_mention(rv, s) by {
                if m.has_symbol(s) {
                    let i = choose|i: int| 0 <= i < m.n() && #[trigger] m.syms[i] == s;
                    assert(sv.contains(s));
                }
                if rules_mention(rv, s) {
                    assert(sv.contains(s));
                    let i = choose|i: int| 0 <= i < sv.len() && sv[i] == s;
                    assert(m.syms[i] == s);
                }
            }
            assert forall|s: SymbolView| #[trigger] rules_mention(rv, s) && !s.1 implies rule_alts(rv, s).len() > 0 by {
                assert(sv.contains(s));
                let i = choose|i: int| 0 <= i < sv.len() && sv[i] == s;
                assert(m.alts_view(i) == rule_alts(rv, s));
            }
        }
        let nullable = compute_nullable(&alts, Ghost(m));
        let mut terminal: Vec<bool> = Vec::new();
        let mut t: usize = 0;
        while t < n
            invariant
                n == symbols.len(),
                sv == views(symbols@),
                t <= n,
                terminal.len() == t,
                forall|v: int| 0 <= v < t ==> terminal[v] == sv[v].1,
            decreases n - t,
        {
            terminal.push(symbols[t].terminal);
            t = t + 1;
        }
        let first = first_table(&alts, &nullable, &terminal, Ghost(m));
        let follow = follow_table(&alts, &nullable, &first, Ghost(m));
        let g = Grammar { symbols, alts, nullable, first, follow };
        assert(g@ == m);
        Ok(g)
    }
}


impl Grammar {
    /// The grammar's model is well formed.
    pub proof fn lemma_wf(&self)
        requires
            self.inv(),
        ensures
            self@.wf(),
    {
    }

    /// Number of symbols.
    pub fn num_symbols(&self) -> (n: usize)
        requires
            self.inv(),
        ensures
            n == self@.n(),
    {
        self.symbols.len()
    }

    /// Symbol `x`.
    pub fn symbol(&self, x: usize) -> (s: &Symbol)
        requires
            self.inv(),
            x < self@.n(),
        ensures
            s@ == self@.syms[x as int],
    {
        &self.symbols[x]
    }

    /// The number of `s`, if it is a symbol of the grammar.
    pub fn symbol_id(&self, s: &Symbol) -> (r: Option<usize>)
        requires
            self.inv(),
        ensures
            r matches Some(x) ==> x < self@.n() && self@.syms[x as int] == s@,
            r is None ==> !self@.has_symbol(s@),
    {
        let r = index_of(&self.symbols, s);
        proof {
            if r is None {
                assert forall|x: int| 0 <= x < self@.n() implies #[trigger] self@.syms[x] != s@ by {
                    assert(self@.syms[x] == self.symbols[x]@);
                }
            }
        }
        r
    }

    /// Number of alternatives of `a`.
    pub fn num_alternatives(&self, a: usize) -> (k: usize)
        requires
            self.inv(),
            a < self@.n(),
        ensures
            k == self@.alts[a as int].len(),
    {
        self.alts[a].len()
    }

    /// Alternative `j` of `a`, as symbol numbers.
    pub fn rhs_ids(&self, a: usize, j: usize) -> (r: &Vec<usize>)
        requires
            self.inv(),
            self@.is_alt(a as int, j as int),
        ensures
            r@ == self@.rhs(a as int, j as int),
    {
        proof {
            lemma_rhs_view(self@, &self.alts, a as int, j as int);
        }
        &self.alts[a][j]
    }

    /// Whether symbol `x` derives the empty sequence.
    pub fn is_nullable(&self, x: usize) -> (b: bool)
        requires
            self.inv(),
            x < self@.n(),
        ensures
            b == self@.derives_empty(x as int),
    {
        self.nullable[x]
    }

    /// Whether terminal `t` is in FIRST of symbol `x`.
    pub fn first_has(&self, x: usize, t: usize) -> (b: bool)
        requires
            self.inv(),
            x < self@.n(),
            t < self@.n(),
        ensures
            b == self@.in_first(x as int, t as int),
    {
        self.first[x][t]
    }

    /// Whether terminal `t` is in FOLLOW of symbol `x`.
    pub fn follow_has(&self, x: usize, t: usize) -> (b: bool)
        requires
            self.inv(),
            x < self@.n(),
            t < self@.n(),
        ensures
            b == self@.in_follow(x as int, t as int),
    {
        self.follow[x][t]
    }
}

/// The nullable set is exactly the least set closed under "has an empty
/// alternative, or an alternative whose every symbol is nullable": it is closed
/// under that rule, and it lies inside every set that is.
pub proof fn lemma_nullable_least(g: &Grammar, s: Set<int>)
    requires
        g.inv(),
        g@.nullable_closed(s),
    ensures
        g@.nullable_closed(g@.nullable_set()),
        g@.nullable_set().subset_of(s),
{
    let m = g@;
    assert forall|a: int, j: int|
        0 <= a < m.n() && 0 <= j < m.alts[a].len() && #[trigger] m.all_in(m.nullable_set(), m.rhs(a, j))
        implies m.nullable_set().contains(a) by {
        assert forall|c: Set<int>| #[trigger] m.nullable_closed(c) implies c.contains(a) by {
            let r = m.rhs(a, j);
            assert forall|i: int| 0 <= i < r.len() implies c.contains(#[trigger] r[i] as int) by {
                assert(m.nullable_set().contains(r[i] as int));
            }
            assert(m.all_in(c, r));
        }
    }
}

/// Every terminal in FIRST of `x` is the first symbol of something `x` derives:
/// there is a chain from `x` to `t` in which each symbol stands in an
/// alternative of the one before it, after symbols that all derive the empty
/// sequence.
pub proof fn lemma_first_sound(g: &Grammar, x: int, t: int)
    requires
        g.inv(),
        0 <= x < g@.n(),
        g@.in_first(x, t),
    ensures
        g@.is_terminal(t),
        exists|p: Seq<int>| #[trigger] is_walk(g@.first_rel(), p) && p[0] == x && p.last() == t,
{
}

/// Every terminal in FOLLOW of `x` begins something that stands after a symbol
/// `y` in some alternative, with only symbols that derive the empty sequence
/// between them, where `y` is `x` or inherits its followers through a chain of
/// alternatives that `x` ends.
pub proof fn lemma_follow_sound(g: &Grammar, x: int, t: int)
    requires
        g.inv(),
        0 <= x < g@.n(),
        g@.in_follow(x, t),
    ensures
        g@.is_terminal(t),
        exists|y: int, a: int, j: int, i: int, q: int|
            #![trigger reaches(g@.follow_rel(), x, y), g@.rhs(a, j)[i], g@.rhs(a, j)[q]]
            reaches(g@.follow_rel(), x, y) && g@.is_alt(a, j) && 0 <= i < q < g@.rhs(a, j).len()
                && g@.rhs(a, j)[i] as int == y && g@.nullable_span(g@.rhs(a, j), i + 1, q)
                && g@.in_first(g@.rhs(a, j)[q] as int, t),
{
    let m = g@;
    let y = choose|y: int| #[trigger] reaches(m.follow_rel(), x, y) && m.direct_follow(y, t);
    let z = choose|z: int| #[trigger] m.after_step(y, z) && m.in_first(z, t);
    let (a, j) = choose|a: int, j: int| #[trigger] m.is_alt(a, j) && m.after_in(m.rhs(a, j), y, z);
    let (i, q) = choose|i: int, q: int|
        0 <= i < q < m.rhs(a, j).len() && #[trigger] m.rhs(a, j)[i] as int == y && #[trigger] m.rhs(a, j)[q] as int == z
            && m.nullable_span(m.rhs(a, j), i + 1, q);
}


/// A symbol's number is where it stands.
pub proof fn lemma_id_of(m: GrammarModel, x: int)
    requires
        m.wf(),
        0 <= x < m.n(),
    ensures
        m.id_of(m.syms[x]) == x,
        m.has_symbol(m.syms[x]),
{
    assert(m.syms[x] == m.syms[x]);
    let y = m.id_of(m.syms[x]);
    assert(m.syms[y] == m.syms[x]);
}

impl Grammar {
    /// Alternative `rhs_id` of `lhs`, or `None` when `lhs` is not a symbol of
    /// the grammar or has fewer alternatives.
    pub fn get_rhs(&self, lhs: &Symbol, rhs_id: u32) -> (r: Option<Vec<Symbol>>)
        requires
            self.inv(),
        ensures
            r is Some <==> (self@.has_symbol(lhs@) && rhs_id < self@.alts[self@.id_of(lhs@)].len()),
            r matches Some(v) ==> views(v@) == self@.alt_view(self@.id_of(lhs@), rhs_id as int),
    {
        let ghost m = self@;
        proof {
            self.lemma_wf();
        }
        let x = match self.symbol_id(lhs) {
            Some(x) => x,
            None => {
                return None;
            },
        };
        proof {
            lemma_id_of(m, x as int);
        }
        let j = rhs_id as usize;
        if j >= self.num_alternatives(x) {
            return None;
        }
        assert(m.is_alt(x as int, j as int));
        let r = self.rhs_ids(x, j);
        let mut out: Vec<Symbol> = Vec::new();
        let mut i: usize = 0;
        while i < r.len()
            invariant
                self.inv(),
                m == self@,
                m.wf(),
                m.is_alt(x as int, j as int),
                r@ == m.rhs(x as int, j as int),
                i <= r.len(),
                out.len() == i,
                forall|k: int| 0 <= k < i ==> #[trigger] out@[k]@ == m.syms[r@[k] as int],
            decreases r.len() - i,
        {
            assert(r@[i as int] < m.n());
            out.push(self.symbol(r[i]).duplicate());
            i = i + 1;
        }
        assert(views(out@) =~= m.alt_view(x as int, j as int));
        Some(out)
    }

    /// Whether `s` is a symbol of the grammar that derives the empty sequence.
    pub fn symbol_derives_lambda(&self, s: &Symbol) -> (b: bool)
        requires
            self.inv(),
        ensures
            b == self@.sym_nullable(s@),
    {
        proof {
            self.lemma_wf();
        }
        match self.symbol_id(s) {
            Some(x) => {
                proof {
                    lemma_id_of(self@, x as int);
                }
                self.is_nullable(x)
            },
            None => false,
        }
    }

    /// Whether every symbol of `rhs` derives the empty sequence (true of the
    /// empty sequence).
    pub fn rhs_derives_lambda(&self, rhs: &Vec<Symbol>) -> (b: bool)
        requires
            self.inv(),
        ensures
            b == forall|i: int| 0 <= i < rhs.len() ==> self@.sym_nullable(#[trigger] rhs@[i]@),
    {
        let mut i: usize = 0;
        while i < rhs.len()
            invariant
                self.inv(),
                i <= rhs.len(),
                forall|k: int| 0 <= k < i ==> self@.sym_nullable(#[trigger] rhs@[k]@),
            decreases rhs.len() - i,
        {
            if !self.symbol_derives_lambda(&rhs[i]) {
                return false;
            }
            i = i + 1;
        }
        true
    }

    /// FIRST of `s`, each terminal once: `s` itself for a terminal; for a
    /// nonterminal, the terminals that begin a string it derives (none when it
    /// is not a symbol of the grammar).
    pub fn first_of_symbol(&self, s: &Symbol) -> (r: Vec<Symbol>)
        requires
            self.inv(),
        ensures
            distinct_symbols(views(r@)),
            forall|t: SymbolView| views(r@).contains(t) <==> self@.sym_first(s@, t),
    {
        let ghost m = self@;
        proof {
            self.lemma_wf();
        }
        let mut out: Vec<Symbol> = Vec::new();
        if s.terminal {
            out.push(s.duplicate());
            proof {
                assert(views(out@) =~= seq![s@]);
                assert forall|t: SymbolView| views(out@).contains(t) <==> t == s@ by {
                    if t == s@ {
                        assert(views(out@)[0] == t);
                    }
                }
            }
            return out;
        }
        let x = match self.symbol_id(s) {
            Some(x) => x,
            None => {
                assert(views(out@) =~= Seq::<SymbolView>::empty());
                return out;
            },
        };
        proof {
            lemma_id_of(m, x as int);
        }
        let n = self.num_symbols();
        let mut t: usize = 0;
        while t < n
            invariant
                self.inv(),
                m == self@,
                m.wf(),
                n == m.n(),
                x < n,
                m.syms[x as int] == s@,
                m.id_of(s@) == x,
                t <= n,
                distinct_symbols(views(out@)),
                forall|v: SymbolView| views(out@).contains(v) <==> exists|y: int| 0 <= y < t && #[trigger] m.syms[y] == v && m.in_first(x as int, y),
            decreases n - t,
        {
            if self.first_has(x, t) {
                let ghost before = views(out@);
                intern(&mut out, self.symbol(t));
                proof {
                    assert forall|v: SymbolView| views(out@).contains(v) <==> exists|y: int| 0 <= y < t + 1 && #[trigger] m.syms[y] == v && m.in_first(x as int, y) by {
                        if v == m.syms[t as int] {
                            assert(m.syms[t as int] == v);
                        }
                        if exists|y: int| 0 <= y < t + 1 && #[trigger] m.syms[y] == v && m.in_first(x as int, y) {
                            let y = choose|y: int| 0 <= y < t + 1 && #[trigger] m.syms[y] == v && m.in_first(x as int, y);
                            if y < t {
                                assert(before.contains(v));
                            }
                        }
                    }
                }
            } else {
                proof {
                    assert forall|v: SymbolView| views(out@).contains(v) <==> exists|y: int| 0 <= y < t + 1 && #[trigger] m.syms[y] == v && m.in_first(x as int, y) by {
                        if exists|y: int| 0 <= y < t + 1 && #[trigger] m.syms[y] == v && m.in_first(x as int, y) {
                            let y = choose|y: int| 0 <= y < t + 1 && #[trigger] m.syms[y] == v && m.in_first(x as int, y);
                            assert(y != t);
                        }
                    }
                }
            }
            t = t + 1;
        }
        proof {
            assert forall|v: SymbolView| views(out@).contains(v) <==> m.sym_first(s@, v) by {
                if views(out@).contains(v) {
                    let y = choose|y: int| 0 <= y < n && #[trigger] m.syms[y] == v && m.in_first(x as int, y);
                    lemma_id_of(m, y);
                }
                if m.sym_first(s@, v) {
                    let y = m.id_of(v);
                    assert(m.syms[y] == v);
                }
            }
        }
        out
    }

    /// FOLLOW of `s`, each terminal once: the terminals that may immediately
    /// follow it (none when it is not a symbol of the grammar).
    pub fn follow(&self, s: &Symbol) -> (r: Vec<Symbol>)
        requires
            self.inv(),
        ensures
            distinct_symbols(views(r@)),
            forall|t: SymbolView| views(r@).contains(t) <==> self@.sym_follow(s@, t),
    {
        let ghost m = self@;
        proof {
            self.lemma_wf();
        }
        let mut out: Vec<Symbol> = Vec::new();
        let x = match self.symbol_id(s) {
            Some(x) => x,
            None => {
                assert(views(out@) =~= Seq::<SymbolView>::empty());
                return out;
            },
        };
        proof {
            lemma_id_of(m, x as int);
        }
        let n = self.num_symbols();
        let mut t: usize = 0;
        while t < n
            invariant
                self.inv(),
                m == self@,
                m.wf(),
                n == m.n(),
                x < n,
                m.syms[x as int] == s@,
                m.id_of(s@) == x,
                t <= n,
                distinct_symbols(views(out@)),
                forall|v: SymbolView| views(out@).contains(v) <==> exists|y: int| 0 <= y < t && #[trigger] m.syms[y] == v && m.in_follow(x as int, y),
            decreases n - t,
        {
            if self.follow_has(x, t) {
                let ghost before = views(out@);
                intern(&mut out, self.symbol(t));
                proof {
                    assert forall|v: SymbolView| views(out@).contains(v) <==> exists|y: int| 0 <= y < t + 1 && #[trigger] m.syms[y] == v && m.in_follow(x as int, y) by {
                        if v == m.syms[t as int] {
                            assert(m.syms[t as int] == v);
                        }
                        if exists|y: int| 0 <= y < t + 1 && #[trigger] m.syms[y] == v && m.in_follow(x as int, y) {
                            let y = choose|y: int| 0 <= y < t + 1 && #[trigger] m.syms[y] == v && m.in_follow(x as int, y);
                            if y < t {
                                assert(before.contains(v));
                            }
                        }
                    }
                }
            } else {
                proof {
                    assert forall|v: SymbolView| views(out@).contains(v) <==> exists|y: int| 0 <= y < t + 1 && #[trigger] m.syms[y] == v && m.in_follow(x as int, y) by {
                        if exists|y: int| 0 <= y < t + 1 && #[trigger] m.syms[y] == v && m.in_follow(x as int, y) {
                            let y = choose|y: int| 0 <= y < t + 1 && #[trigger] m.syms[y] == v && m.in_follow(x as int, y);
                            assert(y != t);
                        }
                    }
                }
            }
            t = t + 1;
        }
        proof {
            assert forall|v: SymbolView| views(out@).contains(v) <==> m.sym_follow(s@, v) by {
                if views(out@).contains(v) {
                    let y = choose|y: int| 0 <= y < n && #[trigger] m.syms[y] == v && m.in_follow(x as int, y);
                    lemma_id_of(m, y);
                }
                if m.sym_follow(s@, v) {
                    let y = m.id_of(v);
                    assert(m.syms[y] == v);
                }
            }
        }
        out
    }
}


impl Grammar {
    /// FIRST of the sequence `rhs`, each terminal once: the FIRST sets of its
    /// symbols up to and including the first that does not derive the empty
    /// sequence.
    pub fn first_of_rhs(&self, rhs: &Vec<Symbol>) -> (r: Vec<Symbol>)
        requires
            self.inv(),
        ensures
            distinct_symbols(views(r@)),
            forall|t: SymbolView| views(r@).contains(t) <==> self@.seq_first(views(rhs@), t),
    {
        let ghost m = self@;
        let ghost rv = views(rhs@);
        let mut k: usize = 0;
        while k < rhs.len() && self.symbol_derives_lambda(&rhs[k])
            invariant
                self.inv(),
                m == self@,
                rv == views(rhs@),
                k <= rhs.len(),
                forall|q: int| 0 <= q < k ==> m.sym_nullable(#[trigger] rv[q]),
            decreases rhs.len() - k,
        {
            k = k + 1;
        }
        let mut out: Vec<Symbol> = Vec::new();
        let mut i: usize = 0;
        while i < rhs.len() && i <= k
            invariant
                self.inv(),
                m == self@,
                rv == views(rhs@),
                k <= rhs.len(),
                i <= rhs.len(),
                i <= k + 1,
                distinct_symbols(views(out@)),
                forall|v: SymbolView| views(out@).contains(v) <==> exists|i2: int| 0 <= i2 < i && #[trigger] m.sym_first(rv[i2], v),
            decreases rhs.len() - i,
        {
            let fs = self.first_of_symbol(&rhs[i]);
            let ghost before = views(out@);
            let ghost fv = views(fs@);
            assert(forall|v: SymbolView| before.contains(v) <==> exists|i2: int| 0 <= i2 < i && #[trigger] m.sym_first(rv[i2], v));
            let mut q: usize = 0;
            while q < fs.len()
                invariant
                    distinct_symbols(views(out@)),
                    fv == views(fs@),
                    q <= fs.len(),
                    forall|v: SymbolView| views(out@).contains(v) <==> (before.contains(v) || fv.subrange(0, q as int).contains(v)),
                decreases fs.len() - q,
            {
                let ghost mid = views(out@);
                assert(forall|v: SymbolView| mid.contains(v) <==> (before.contains(v) || fv.subrange(0, q as int).contains(v)));
                intern(&mut out, &fs[q]);
                proof {
                    assert(fv.subrange(0, q + 1) =~= fv.subrange(0, q as int).push(fs@[q as int]@));
                    lemma_push_contains(fv.subrange(0, q as int), fs@[q as int]@);
                    assert forall|v: SymbolView| views(out@).contains(v) <==> (before.contains(v) || fv.subrange(0, q + 1).contains(v)) by {
                        assert(views(out@).contains(v) <==> (mid.contains(v) || v == fs@[q as int]@));
                        assert(mid.contains(v) <==> (before.contains(v) || fv.subrange(0, q as int).contains(v)));
                        assert(fv.subrange(0, q + 1).contains(v) <==> (fv.subrange(0, q as int).contains(v) || v == fs@[q as int]@));
                    }
                }
                q = q + 1;
            }
            assert(fv.subrange(0, fs.len() as int) =~= fv);
            proof {
                assert forall|v: SymbolView| views(out@).contains(v) <==> exists|i2: int| 0 <= i2 < i + 1 && #[trigger] m.sym_first(rv[i2], v) by {
                    assert(rv[i as int] == rhs@[i as int]@);
                    assert(views(out@).contains(v) <==> (before.contains(v) || fv.contains(v)));
                    assert(fv.contains(v) <==> m.sym_first(rv[i as int], v));
                    if m.sym_first(rv[i as int], v) {
                        assert(0 <= i < i + 1);
                    }
                    if exists|i2: int| 0 <= i2 < i + 1 && #[trigger] m.sym_first(rv[i2], v) {
                        let i2 = choose|i2: int| 0 <= i2 < i + 1 && #[trigger] m.sym_first(rv[i2], v);
                        if i2 < i {
                            assert(before.contains(v));
                        }
                    }
                }
            }
            i = i + 1;
        }
        proof {
            assert forall|v: SymbolView| views(out@).contains(v) <==> m.seq_first(rv, v) by {
                if views(out@).contains(v) {
                    let i2 = choose|i2: int| 0 <= i2 < i && #[trigger] m.sym_first(rv[i2], v);
                    assert(forall|q: int| 0 <= q < i2 ==> m.sym_nullable(#[trigger] rv[q]));
                }
                if m.seq_first(rv, v) {
                    let i2 = choose|i2: int| 0 <= i2 < rv.len() && (forall|q: int| 0 <= q < i2 ==> m.sym_nullable(#[trigger] rv[q])) && #[trigger] m.sym_first(rv[i2], v);
                    if i2 > k {
                        assert(m.sym_nullable(rv[k as int]));
                        assert(rv[k as int] == rhs@[k as int]@);
                    }
                }
            }
        }
        out
    }
}

} // verus!
