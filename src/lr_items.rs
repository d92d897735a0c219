//! LR items: their numbering, closure and goto.
use vstd::prelude::*;
use crate::grammar::Grammar;
use crate::model::GrammarModel;
use crate::reach::{lists_edges, reachable_set, reaches_from};

verus! {

/// An item `(lhs, alternative, dot)`: alternative `alternative` of `lhs`, of
/// which the symbols before position `dot` have been matched. A dot at the end
/// marks an item ready to reduce.
pub type Item = (usize, usize, usize);

/// `it` is an item of the grammar.
pub open spec fn item_ok(m: GrammarModel, it: Item) -> bool {
    m.is_alt(it.0 as int, it.1 as int) && it.2 <= m.rhs(it.0 as int, it.1 as int).len()
}

/// The length of the alternative of item `it`.
pub open spec fn item_len(m: GrammarModel, it: Item) -> int {
    m.rhs(it.0 as int, it.1 as int).len() as int
}

/// The numbering of items: item `u` is `items[u]`, and item `(a, j, d)` is
/// number `base[a][j] + d`.
pub open spec fn numbering_ok(m: GrammarModel, items: Seq<Item>, base: Seq<Vec<usize>>) -> bool {
    &&& base.len() == m.n()
    &&& forall|a: int| 0 <= a < m.n() ==> (#[trigger] base[a])@.len() == m.alts[a].len()
    &&& forall|u: int| 0 <= u < items.len() ==> item_ok(m, #[trigger] items[u])
    &&& forall|u: int| 0 <= u < items.len() ==> base[(#[trigger] items[u]).0 as int]@[items[u].1 as int] + items[u].2 == u
    &&& forall|a: int, j: int| #[trigger] m.is_alt(a, j) ==> base[a]@[j] + m.rhs(a, j).len() < items.len()
    &&& forall|a: int, j: int, d: int| m.is_alt(a, j) && 0 <= d <= m.rhs(a, j).len() ==> #[trigger] items[base[a]@[j] + d] == (a as usize, j as usize, d as usize)
}

/// Item `v` is predicted by item `u`: the dot of `u` stands before a
/// nonterminal, and `v` is an alternative of that nonterminal with the dot at
/// its start.
pub open spec fn predicts(m: GrammarModel, items: Seq<Item>, u: int, v: int) -> bool {
    &&& 0 <= u < items.len()
    &&& 0 <= v < items.len()
    &&& items[u].2 < item_len(m, items[u])
    &&& !m.is_terminal(m.rhs(items[u].0 as int, items[u].1 as int)[items[u].2 as int] as int)
    &&& items[v].0 == m.rhs(items[u].0 as int, items[u].1 as int)[items[u].2 as int]
    &&& items[v].2 == 0
}

pub open spec fn predict_rel(m: GrammarModel, items: Seq<Item>) -> spec_fn(int, int) -> bool {
    |u: int, v: int| predicts(m, items, u, v)
}

/// Item `u` belongs to the state seeded by `kernel`: it is a kernel item, or
/// predicted by one, and so on.
pub open spec fn in_state(m: GrammarModel, items: Seq<Item>, kernel: Seq<bool>, u: int) -> bool {
    reaches_from(predict_rel(m, items), kernel, u)
}

/// Item `u` is in the closure of `kernel`: the items that expansion adds to
/// the kernel, the kernel's own items left out.
pub open spec fn in_closure(m: GrammarModel, items: Seq<Item>, kernel: Seq<bool>, u: int) -> bool {
    in_state(m, items, kernel, u) && !kernel[u]
}

/// Item `u` is in the goto on symbol `x` of the state with kernel `kernel` and
/// closure `closure`: it is an item of the kernel or the closure whose dot
/// stands before `x`, with the dot moved past `x`.
pub open spec fn in_goto(m: GrammarModel, items: Seq<Item>, kernel: Seq<bool>, closure: Seq<bool>, x: int, u: int) -> bool {
    &&& 0 < u < items.len()
    &&& u - 1 < closure.len()
    &&& u - 1 < kernel.len()
    &&& (kernel[u - 1] || closure[u - 1])
    &&& items[u - 1].2 < item_len(m, items[u - 1])
    &&& m.rhs(items[u - 1].0 as int, items[u - 1].1 as int)[items[u - 1].2 as int] as int == x
}

/// The numbered items of a grammar.
pub struct ItemTable {
    pub items: Vec<Item>,
    pub base: Vec<Vec<usize>>,
}

impl ItemTable {
    pub open spec fn ok(&self, m: GrammarModel) -> bool {
        numbering_ok(m, self.items@, self.base@)
    }

    /// Numbers every item of the grammar.
    pub fn new(g: &Grammar) -> (t: ItemTable)
        requires
            g.inv(),
        ensures
            t.ok(g@),
    {
        proof {
            g.lemma_wf();
        }
        let ghost m = g@;
        let n = g.num_symbols();
        let mut items: Vec<Item> = Vec::new();
        let mut base: Vec<Vec<usize>> = Vec::new();
        let mut a: usize = 0;
        while a < n
            invariant
                g.inv(),
                m == g@,
                m.wf(),
                n == m.n(),
                a <= n,
                base.len() == a,
                forall|a2: int| 0 <= a2 < a ==> (#[trigger] base[a2])@.len() == m.alts[a2].len(),
                forall|u: int| 0 <= u < items.len() ==> item_ok(m, #[trigger] items[u]) && items[u].0 < a,
                forall|u: int| 0 <= u < items.len() ==> base[(#[trigger] items[u]).0 as int]@[items[u].1 as int] + items[u].2 == u,
                forall|a2: int, j: int| #[trigger] m.is_alt(a2, j) && a2 < a ==> base[a2]@[j] + m.rhs(a2, j).len() < items.len(),
                forall|a2: int, j: int, d: int| m.is_alt(a2, j) && a2 < a && 0 <= d <= m.rhs(a2, j).len() ==> #[trigger] items@[base[a2]@[j] + d] == (a2 as usize, j as usize, d as usize),
            decreases n - a,
        {
            let k = g.num_alternatives(a);
            let mut row: Vec<usize> = Vec::new();
            let mut j: usize = 0;
            while j < k
                invariant
                    g.inv(),
                    m == g@,
                    m.wf(),
                    n == m.n(),
                    a < n,
                    k == m.alts[a as int].len(),
                    j <= k,
                    base.len() == a,
                    row.len() == j,
                    forall|a2: int| 0 <= a2 < a ==> (#[trigger] base[a2])@.len() == m.alts[a2].len(),
                    forall|u: int| 0 <= u < items.len() ==> item_ok(m, #[trigger] items[u]) && (items[u].0 < a || (items[u].0 == a && items[u].1 < j)),
                    forall|u: int| 0 <= u < items.len() && items[u].0 < a ==> base[(#[trigger] items[u]).0 as int]@[items[u].1 as int] + items[u].2 == u,
                    forall|u: int| 0 <= u < items.len() && items[u].0 == a ==> row@[(#[trigger] items[u]).1 as int] + items[u].2 == u,
                    forall|a2: int, j2: int| #[trigger] m.is_alt(a2, j2) && a2 < a ==> base[a2]@[j2] + m.rhs(a2, j2).len() < items.len(),
                    forall|j2: int| 0 <= j2 < j ==> #[trigger] row@[j2] + m.rhs(a as int, j2).len() < items.len(),
                    forall|a2: int, j2: int, d: int| m.is_alt(a2, j2) && a2 < a && 0 <= d <= m.rhs(a2, j2).len() ==> #[trigger] items@[base[a2]@[j2] + d] == (a2 as usize, j2 as usize, d as usize),
                    forall|j2: int, d: int| 0 <= j2 < j && 0 <= d <= m.rhs(a as int, j2).len() ==> #[trigger] items@[row@[j2] + d] == (a, j2 as usize, d as usize),
                decreases k - j,
            {
                assert(m.is_alt(a as int, j as int));
                let len = g.rhs_ids(a, j).len();
                let start = items.len();
                row.push(start);
                items.push((a, j, 0));
                let mut d: usize = 0;
                while d < len
                    invariant
                        m.wf(),
                        n == m.n(),
                        a < n,
                        k == m.alts[a as int].len(),
                        j < k,
                        m.is_alt(a as int, j as int),
                        len == m.rhs(a as int, j as int).len(),
                        base.len() == a,
                        row.len() == j + 1,
                        row@[j as int] == start,
                        d <= len,
                        items.len() == start + d + 1,
                        forall|a2: int| 0 <= a2 < a ==> (#[trigger] base[a2])@.len() == m.alts[a2].len(),
                        forall|u: int| 0 <= u < items.len() ==> item_ok(m, #[trigger] items[u]) && (items[u].0 < a || (items[u].0 == a && items[u].1 <= j)),
                        forall|u: int| 0 <= u < items.len() && items[u].0 < a ==> base[(#[trigger] items[u]).0 as int]@[items[u].1 as int] + items[u].2 == u,
                        forall|u: int| 0 <= u < items.len() && items[u].0 == a ==> row@[(#[trigger] items[u]).1 as int] + items[u].2 == u,
                        forall|a2: int, j2: int| #[trigger] m.is_alt(a2, j2) && a2 < a ==> base[a2]@[j2] + m.rhs(a2, j2).len() < start,
                        forall|j2: int| 0 <= j2 < j ==> #[trigger] row@[j2] + m.rhs(a as int, j2).len() < start,
                        forall|a2: int, j2: int, dd: int| m.is_alt(a2, j2) && a2 < a && 0 <= dd <= m.rhs(a2, j2).len() ==> #[trigger] items@[base[a2]@[j2] + dd] == (a2 as usize, j2 as usize, dd as usize),
                        forall|j2: int, dd: int| 0 <= j2 < j && 0 <= dd <= m.rhs(a as int, j2).len() ==> #[trigger] items@[row@[j2] + dd] == (a, j2 as usize, dd as usize),
                        forall|dd: int| 0 <= dd <= d ==> #[trigger] items@[start + dd] == (a, j, dd as usize),
                    decreases len - d,
                {
                    d = d + 1;
                    items.push((a, j, d));
                }
                j = j + 1;
            }
            base.push(row);
            a = a + 1;
        }
        ItemTable { items, base }
    }
}


impl ItemTable {
    /// Successor lists of the prediction graph over item numbers.
    pub fn predict_graph(&self, g: &Grammar) -> (adj: Vec<Vec<usize>>)
        requires
            g.inv(),
            self.ok(g@),
        ensures
            adj.len() == self.items.len(),
            lists_edges(adj@, predict_rel(g@, self.items@)),
    {
        proof {
            g.lemma_wf();
        }
        let ghost m = g@;
        let ghost its = self.items@;
        let total = self.items.len();
        let mut adj: Vec<Vec<usize>> = Vec::new();
        let mut u: usize = 0;
        while u < total
            invariant
                g.inv(),
                m == g@,
                m.wf(),
                its == self.items@,
                self.ok(m),
                total == its.len(),
                u <= total,
                adj.len() == u,
                forall|u2: int, k: int| 0 <= u2 < u && 0 <= k < adj[u2]@.len() ==> (#[trigger] adj[u2]@[k]) < total && predicts(m, its, u2, adj[u2]@[k] as int),
                forall|u2: int, v: int| 0 <= u2 < u && #[trigger] predicts(m, its, u2, v) ==> adj[u2]@.contains(v as usize),
            decreases total - u,
        {
            let (a, j, d) = self.items[u];
            assert(item_ok(m, its[u as int]));
            let r = g.rhs_ids(a, j);
            let mut succ: Vec<usize> = Vec::new();
            if d < r.len() {
                let b = r[d];
                if !g.symbol(b).terminal {
                    let k = g.num_alternatives(b);
                    let mut j2: usize = 0;
                    while j2 < k
                        invariant
                            m.wf(),
                            its == self.items@,
                            self.ok(m),
                            total == its.len(),
                            u < total,
                            its[u as int] == (a, j, d),
                            item_ok(m, its[u as int]),
                            d < m.rhs(a as int, j as int).len(),
                            b == m.rhs(a as int, j as int)[d as int],
                            b < m.n(),
                            !m.is_terminal(b as int),
                            k == m.alts[b as int].len(),
                            j2 <= k,
                            succ.len() == j2,
                            forall|k2: int| 0 <= k2 < j2 ==> #[trigger] succ@[k2] == self.base@[b as int]@[k2],
                        decreases k - j2,
                    {
                        succ.push(self.base[b][j2]);
                        j2 = j2 + 1;
                    }
                    proof {
                        assert forall|k2: int| 0 <= k2 < succ.len() implies (#[trigger] succ@[k2]) < total && predicts(m, its, u as int, succ@[k2] as int) by {
                            assert(m.is_alt(b as int, k2));
                            assert(its[self.base@[b as int]@[k2] + 0] == (b, k2 as usize, 0usize));
                        }
                        assert forall|v: int| #[trigger] predicts(m, its, u as int, v) implies succ@.contains(v as usize) by {
                            assert(item_ok(m, its[v]));
                            assert(self.base@[its[v].0 as int]@[its[v].1 as int] + its[v].2 == v);
                            assert(succ@[its[v].1 as int] == v);
                        }
                    }
                }
            }
            adj.push(succ);
            u = u + 1;
        }
        proof {
            assert forall|x: int, y: int| #[trigger] predict_rel(m, its)(x, y) implies 0 <= x < adj@.len() && 0 <= y < adj@.len() && adj@[x]@.contains(y as usize) by {
                assert(predicts(m, its, x, y));
            }
        }
        adj
    }

    /// The closure of `kernel`: the items that expansion adds to it, its own
    /// items left out.
    pub fn closure(&self, g: &Grammar, adj: &Vec<Vec<usize>>, kernel: &Vec<bool>) -> (c: Vec<bool>)
        requires
            g.inv(),
            self.ok(g@),
            adj.len() == self.items.len(),
            lists_edges(adj@, predict_rel(g@, self.items@)),
            kernel.len() == self.items.len(),
        ensures
            c.len() == self.items.len(),
            forall|u: int| 0 <= u < c.len() ==> (c[u] <==> in_closure(g@, self.items@, kernel@, u)),
    {
        let reached = reachable_set(adj, kernel, Ghost(predict_rel(g@, self.items@)));
        let total = reached.len();
        let mut c: Vec<bool> = Vec::new();
        let mut u: usize = 0;
        while u < total
            invariant
                total == reached.len(),
                total == kernel.len(),
                u <= total,
                c.len() == u,
                forall|v: int| 0 <= v < total ==> (reached[v] <==> in_state(g@, self.items@, kernel@, v)),
                forall|v: int| 0 <= v < u ==> (c[v] <==> in_closure(g@, self.items@, kernel@, v)),
            decreases total - u,
        {
            c.push(reached[u] && !kernel[u]);
            u = u + 1;
        }
        c
    }

    /// The goto on symbol `x` of the state with kernel `kernel` and closure
    /// `closure`, as a kernel.
    pub fn goto(&self, g: &Grammar, kernel: &Vec<bool>, closure: &Vec<bool>, x: usize) -> (k: Vec<bool>)
        requires
            g.inv(),
            self.ok(g@),
            kernel.len() == self.items.len(),
            closure.len() == self.items.len(),
        ensures
            k.len() == self.items.len(),
            forall|u: int| 0 <= u < k.len() ==> (k[u] <==> in_goto(g@, self.items@, kernel@, closure@, x as int, u)),
    {
        let ghost m = g@;
        let total = self.items.len();
        let mut k: Vec<bool> = Vec::new();
        if total == 0 {
            return k;
        }
        k.push(false);
        let mut u: usize = 1;
        while u < total
            invariant
                g.inv(),
                m == g@,
                self.ok(m),
                total == self.items.len(),
                closure.len() == total,
                kernel.len() == total,
                1 <= u <= total,
                k.len() == u,
                !k[0],
                forall|u2: int| 0 <= u2 < u ==> (k[u2] <==> in_goto(m, self.items@, kernel@, closure@, x as int, u2)),
            decreases total - u,
        {
            let (a, j, d) = self.items[u - 1];
            assert(item_ok(m, self.items@[u - 1]));
            let mut hit = false;
            if kernel[u - 1] || closure[u - 1] {
                let r = g.rhs_ids(a, j);
                if d < r.len() && r[d] == x {
                    hit = true;
                }
            }
            k.push(hit);
            u = u + 1;
        }
        k
    }
}

} // verus!
