//! The mathematical model of a grammar and the sets that its analysis computes.
use vstd::prelude::*;
use crate::reach::reaches;
use crate::symbol::SymbolView;

verus! {

/// A grammar as mathematics: symbol `x` is `syms[x]`, and `alts[a][j]` is the
/// `j`-th alternative of `a`, a sequence of symbol ids.
pub struct GrammarModel {
    pub syms: Seq<SymbolView>,
    pub alts: Seq<Seq<Seq<usize>>>,
}

impl GrammarModel {
    pub open spec fn n(self) -> int {
        self.syms.len() as int
    }

    pub open spec fn is_terminal(self, x: int) -> bool {
        self.syms[x].1
    }

    pub open spec fn rhs(self, a: int, j: int) -> Seq<usize> {
        self.alts[a][j]
    }

    /// Ids are in range, labels are distinct, terminals have no alternatives and
    /// every nonterminal has at least one.
    pub open spec fn wf(self) -> bool {
        &&& self.alts.len() == self.syms.len()
        &&& forall|a: int|
            0 <= a < self.n() ==> (#[trigger] self.is_terminal(a) <==> self.alts[a].len() == 0)
        &&& forall|a: int, j: int, i: int|
            0 <= a < self.n() && 0 <= j < self.alts[a].len() && 0 <= i < self.alts[a][j].len()
                ==> #[trigger] self.alts[a][j][i] < self.n()
        &&& forall|x: int, y: int|
            0 <= x < self.n() && 0 <= y < self.n() && x != y ==> #[trigger] self.syms[x]
                != #[trigger] self.syms[y]
    }

    /// Every symbol of `r` is in `s`.
    pub open spec fn all_in(self, s: Set<int>, r: Seq<usize>) -> bool {
        forall|i: int| 0 <= i < r.len() ==> s.contains(#[trigger] r[i] as int)
    }

    /// `s` holds each symbol that has an alternative made only of symbols in `s`
    /// (an empty alternative among them).
    pub open spec fn nullable_closed(self, s: Set<int>) -> bool {
        forall|a: int, j: int|
            0 <= a < self.n() && 0 <= j < self.alts[a].len() && #[trigger] self.all_in(
                s,
                self.rhs(a, j),
            ) ==> s.contains(a)
    }

    /// `x` derives the empty sequence: it lies in every set closed under the
    /// nullable rule, that is in the least such set.
    pub open spec fn derives_empty(self, x: int) -> bool {
        forall|s: Set<int>| #[trigger] self.nullable_closed(s) ==> s.contains(x)
    }

    /// The symbols of `r` at positions `lo..hi` all derive the empty sequence.
    pub open spec fn nullable_span(self, r: Seq<usize>, lo: int, hi: int) -> bool {
        forall|k: int| lo <= k < hi ==> self.derives_empty(#[trigger] r[k] as int)
    }

    /// `j` is an alternative of `a`.
    pub open spec fn is_alt(self, a: int, j: int) -> bool {
        0 <= a < self.n() && 0 <= j < self.alts[a].len()
    }

    /// `b` stands in `r` after symbols that all derive the empty sequence.
    pub open spec fn first_in(self, r: Seq<usize>, b: int) -> bool {
        exists|i: int| 0 <= i < r.len() && #[trigger] r[i] as int == b && self.nullable_span(r, 0, i)
    }

    /// `y` stands in `r` and everything after it derives the empty sequence.
    pub open spec fn ends_in(self, r: Seq<usize>, y: int) -> bool {
        exists|i: int|
            0 <= i < r.len() && #[trigger] r[i] as int == y && self.nullable_span(
                r,
                i + 1,
                r.len() as int,
            )
    }

    /// `z` stands after `y` in `r` with only symbols that derive the empty
    /// sequence between them.
    pub open spec fn after_in(self, r: Seq<usize>, y: int, z: int) -> bool {
        exists|i: int, q: int|
            0 <= i < q < r.len() && #[trigger] r[i] as int == y && #[trigger] r[q] as int == z
                && self.nullable_span(r, i + 1, q)
    }

    /// One step of FIRST: what `b` begins with, `a` may begin with.
    pub open spec fn first_step(self, a: int, b: int) -> bool {
        exists|j: int| #[trigger] self.is_alt(a, j) && self.first_in(self.rhs(a, j), b)
    }

    pub open spec fn first_rel(self) -> spec_fn(int, int) -> bool {
        |a: int, b: int| self.first_step(a, b)
    }

    /// Terminal `t` begins some string that `x` derives.
    pub open spec fn in_first(self, x: int, t: int) -> bool {
        0 <= t < self.n() && self.is_terminal(t) && reaches(self.first_rel(), x, t)
    }

    /// One step of FOLLOW: `y` ends an alternative of `a`, so what follows `a`
    /// may follow `y`.
    pub open spec fn follow_step(self, y: int, a: int) -> bool {
        exists|j: int| #[trigger] self.is_alt(a, j) && self.ends_in(self.rhs(a, j), y)
    }

    pub open spec fn follow_rel(self) -> spec_fn(int, int) -> bool {
        |y: int, a: int| self.follow_step(y, a)
    }

    /// `z` stands after `y` in some alternative.
    pub open spec fn after_step(self, y: int, z: int) -> bool {
        exists|a: int, j: int| #[trigger] self.is_alt(a, j) && self.after_in(self.rhs(a, j), y, z)
    }

    /// Terminal `t` begins something that stands after `y` in an alternative.
    pub open spec fn direct_follow(self, y: int, t: int) -> bool {
        exists|z: int| #[trigger] self.after_step(y, z) && self.in_first(z, t)
    }

    /// Terminal `t` may immediately follow `x`: it directly follows some symbol
    /// `y` whose followers `x` inherits (`y` is `x` itself, or `x` ends an
    /// alternative of `y`, and so on).
    pub open spec fn in_follow(self, x: int, t: int) -> bool {
        exists|y: int| #[trigger] reaches(self.follow_rel(), x, y) && self.direct_follow(y, t)
    }

    /// Alternative `j` of `x`, written with symbols.
    pub open spec fn alt_view(self, x: int, j: int) -> Seq<SymbolView> {
        self.rhs(x, j).map_values(|id: usize| self.syms[id as int])
    }

    /// The alternatives of `x`, written with symbols.
    pub open spec fn alts_view(self, x: int) -> Seq<Seq<SymbolView>> {
        Seq::new(self.alts[x].len(), |j: int| self.alt_view(x, j))
    }

    /// `s` is a symbol of the grammar.
    pub open spec fn has_symbol(self, s: SymbolView) -> bool {
        exists|x: int| 0 <= x < self.n() && #[trigger] self.syms[x] == s
    }

    /// The symbols that derive the empty sequence.
    pub open spec fn nullable_set(self) -> Set<int> {
        Set::new(|x: int| 0 <= x < self.n() && self.derives_empty(x))
    }

    /// The number of symbol `s`.
    pub open spec fn id_of(self, s: SymbolView) -> int {
        choose|x: int| 0 <= x < self.n() && self.syms[x] == s
    }

    /// `s` is a symbol of the grammar that derives the empty sequence.
    pub open spec fn sym_nullable(self, s: SymbolView) -> bool {
        self.has_symbol(s) && self.derives_empty(self.id_of(s))
    }

    /// FIRST of a symbol, by views: a terminal begins only itself; a
    /// nonterminal of the grammar begins the terminals of its FIRST set.
    pub open spec fn sym_first(self, s: SymbolView, t: SymbolView) -> bool {
        if s.1 {
            t == s
        } else {
            self.has_symbol(s) && self.has_symbol(t) && self.in_first(self.id_of(s), self.id_of(t))
        }
    }

    /// FIRST of a sequence of symbols, by views.
    pub open spec fn seq_first(self, r: Seq<SymbolView>, t: SymbolView) -> bool {
        exists|i: int|
            0 <= i < r.len() && (forall|k: int| 0 <= k < i ==> self.sym_nullable(#[trigger] r[k]))
                && #[trigger] self.sym_first(r[i], t)
    }

    /// FOLLOW of a symbol, by views.
    pub open spec fn sym_follow(self, s: SymbolView, t: SymbolView) -> bool {
        self.has_symbol(s) && self.has_symbol(t) && self.in_follow(self.id_of(s), self.id_of(t))
    }

    /// One derivation step: `w` is `u` with one occurrence of a nonterminal
    /// replaced by one of its alternatives.
    pub open spec fn derive_step(self, u: Seq<SymbolView>, w: Seq<SymbolView>) -> bool {
        exists|p: int, a: int, j: int|
            #![trigger u[p], self.alt_view(a, j)]
            0 <= p < u.len() && self.is_alt(a, j) && u[p] == self.syms[a] && w == u.subrange(0, p)
                + self.alt_view(a, j) + u.subrange(p + 1, u.len() as int)
    }

    /// `d` is a derivation: a nonempty sequence of sentential forms, each one
    /// step from the one before.
    pub open spec fn is_derivation(self, d: Seq<Seq<SymbolView>>) -> bool {
        &&& d.len() > 0
        &&& forall|i: int| 0 <= i < d.len() - 1 ==> #[trigger] self.derive_step(d[i], d[i + 1])
    }

    /// `u` derives `w` in zero or more steps.
    pub open spec fn derives(self, u: Seq<SymbolView>, w: Seq<SymbolView>) -> bool {
        exists|d: Seq<Seq<SymbolView>>| #[trigger] self.is_derivation(d) && d[0] == u && d.last() == w
    }

    /// Every sentential form derives itself.
    pub proof fn lemma_derives_refl(self, u: Seq<SymbolView>)
        ensures
            self.derives(u, u),
    {
        assert(self.is_derivation(seq![u]));
    }

    /// A derivation extends by one step.
    pub proof fn lemma_derives_step(self, u: Seq<SymbolView>, v: Seq<SymbolView>, w: Seq<SymbolView>)
        requires
            self.derives(u, v),
            self.derive_step(v, w),
        ensures
            self.derives(u, w),
    {
        let d = choose|d: Seq<Seq<SymbolView>>| #[trigger] self.is_derivation(d) && d[0] == u && d.last() == v;
        let e = d.push(w);
        assert forall|i: int| 0 <= i < e.len() - 1 implies #[trigger] self.derive_step(e[i], e[i + 1]) by {
            if i < d.len() - 1 {
                assert(self.derive_step(d[i], d[i + 1]));
            }
        }
        assert(self.is_derivation(e));
    }

    /// A derivation extends by one step at its start.
    pub proof fn lemma_derives_prepend(self, u: Seq<SymbolView>, v: Seq<SymbolView>, w: Seq<SymbolView>)
        requires
            self.derive_step(u, v),
            self.derives(v, w),
        ensures
            self.derives(u, w),
    {
        let d = choose|d: Seq<Seq<SymbolView>>| #[trigger] self.is_derivation(d) && d[0] == v && d.last() == w;
        let e = seq![u] + d;
        assert forall|i: int| 0 <= i < e.len() - 1 implies #[trigger] self.derive_step(e[i], e[i + 1]) by {
            if i > 0 {
                let k = i - 1;
                assert(e[i] == d[k] && e[i + 1] == d[k + 1]);
                assert(self.derive_step(d[k], d[k + 1]));
            }
        }
        assert(self.is_derivation(e));
    }

    /// The nullable flags that the analysis computes, as a set.
    pub open spec fn marked_set(marks: Seq<bool>) -> Set<int> {
        Set::new(|x: int| 0 <= x < marks.len() && marks[x])
    }
}


/// A rule block as mathematics: a left-hand side and its alternatives.
pub type RuleView = (SymbolView, Seq<Seq<SymbolView>>);

/// `s` occurs in rule block `b`, as its left-hand side or inside an alternative.
pub open spec fn block_mentions(b: RuleView, s: SymbolView) -> bool {
    b.0 == s || exists|j: int, i: int|
        0 <= j < b.1.len() && 0 <= i < b.1[j].len() && #[trigger] b.1[j][i] == s
}

/// `s` occurs in some rule block.
pub open spec fn rules_mention(rules: Seq<RuleView>, s: SymbolView) -> bool {
    exists|r: int| 0 <= r < rules.len() && #[trigger] block_mentions(rules[r], s)
}

/// The alternatives of `s`: those of every block for `s`, in order.
pub open spec fn rule_alts(rules: Seq<RuleView>, s: SymbolView) -> Seq<Seq<SymbolView>>
    decreases rules.len(),
{
    if rules.len() == 0 {
        Seq::empty()
    } else {
        rule_alts(rules.drop_last(), s) + if rules.last().0 == s {
            rules.last().1
        } else {
            Seq::empty()
        }
    }
}

/// The blocks are acceptable: each left-hand side is a nonterminal, and each
/// nonterminal that occurs has at least one alternative.
pub open spec fn rules_acceptable(rules: Seq<RuleView>) -> bool {
    &&& forall|r: int| 0 <= r < rules.len() ==> !(#[trigger] rules[r]).0.1
    &&& forall|s: SymbolView| #[trigger] rules_mention(rules, s) && !s.1 ==> rule_alts(rules, s).len() > 0
}

} // verus!
