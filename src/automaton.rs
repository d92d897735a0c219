//! The LR(0) automaton: states identified by their kernels, built by a
//! work-list that visits each distinct kernel once.
use vstd::prelude::*;
use vstd::set_lib::{lemma_int_range, lemma_len_subset, set_int_range};
use crate::grammar::Grammar;
use crate::lr_items::{ItemTable, in_closure, in_goto, predict_rel};
use crate::model::GrammarModel;
use crate::reach::lists_edges;

verus! {

pub open spec fn pow2(k: nat) -> nat
    decreases k,
{
    if k == 0 {
        1
    } else {
        2 * pow2((k - 1) as nat)
    }
}

/// A sequence of flags read as a binary number, first flag lowest.
pub open spec fn flags_code(s: Seq<bool>) -> int
    decreases s.len(),
{
    if s.len() == 0 {
        0
    } else {
        2 * flags_code(s.drop_first()) + if s[0] {
            1int
        } else {
            0int
        }
    }
}

proof fn lemma_code_range(s: Seq<bool>)
    ensures
        0 <= flags_code(s) < pow2(s.len()),
    decreases s.len(),
{
    if s.len() > 0 {
        lemma_code_range(s.drop_first());
    }
}

proof fn lemma_code_injective(s: Seq<bool>, t: Seq<bool>)
    requires
        s.len() == t.len(),
        flags_code(s) == flags_code(t),
    ensures
        s == t,
    decreases s.len(),
{
    if s.len() > 0 {
        assert(s[0] == t[0]);
        lemma_code_injective(s.drop_first(), t.drop_first());
        assert forall|i: int| 0 <= i < s.len() implies s[i] == t[i] by {
            if i > 0 {
                assert(s[i] == s.drop_first()[i - 1]);
                assert(t[i] == t.drop_first()[i - 1]);
            }
        }
        assert(s =~= t);
    }
}

/// Pairwise distinct sequences of `k` flags number at most `2^k`.
proof fn lemma_distinct_flags_bound(ks: Seq<Seq<bool>>, k: nat)
    requires
        forall|i: int| 0 <= i < ks.len() ==> (#[trigger] ks[i]).len() == k,
        forall|i: int, j: int| 0 <= i < ks.len() && 0 <= j < ks.len() && i != j ==> #[trigger] ks[i] != #[trigger] ks[j],
    ensures
        ks.len() <= pow2(k),
{
    let codes = ks.map_values(|s: Seq<bool>| flags_code(s));
    assert forall|i: int, j: int| 0 <= i < codes.len() && 0 <= j < codes.len() && i != j implies codes[i] != codes[j] by {
        if codes[i] == codes[j] {
            lemma_code_injective(ks[i], ks[j]);
        }
    }
    assert(codes.no_duplicates());
    codes.unique_seq_to_set();
    assert forall|c: int| codes.to_set().contains(c) implies set_int_range(0, pow2(k) as int).contains(c) by {
        let i = choose|i: int| 0 <= i < codes.len() && codes[i] == c;
        lemma_code_range(ks[i]);
    }
    lemma_int_range(0, pow2(k) as int);
    lemma_len_subset(codes.to_set(), set_int_range(0, pow2(k) as int));
}

/// The views of a sequence of flag vectors.
pub open spec fn flag_views(v: Seq<Vec<bool>>) -> Seq<Seq<bool>> {
    v.map_values(|f: Vec<bool>| f@)
}

/// The states of the automaton: state `i` has kernel `kernels[i]` and closure
/// `closures[i]` (the items expansion adds, kernel items left out), both as
/// flags over item numbers; on symbol
/// `x` it moves to state `shifts[i][x]`, if to any.
pub struct Automaton {
    pub kernels: Vec<Vec<bool>>,
    pub closures: Vec<Vec<bool>>,
    pub shifts: Vec<Vec<Option<usize>>>,
}

impl Automaton {
    /// The automaton of the grammar seeded with `start`: state 0 has kernel
    /// `start`; closures are exact; no two states share a kernel; each state
    /// moves on `x` exactly when its goto on `x` is nonempty, to the state whose
    /// kernel is that goto; each state but the first is reached by a move
    /// from an earlier state; and states are numbered in the order the
    /// work-list finds them.
    pub open spec fn ok(&self, m: GrammarModel, items: Seq<(usize, usize, usize)>, start: Seq<bool>) -> bool {
        let ks = self.kernels@;
        let cs = self.closures@;
        let ss = self.shifts@;
        &&& ks.len() >= 1
        &&& cs.len() == ks.len()
        &&& ss.len() == ks.len()
        &&& ks[0]@ == start
        &&& forall|i: int| 0 <= i < ks.len() ==> (#[trigger] ks[i]).len() == items.len()
        &&& forall|i: int| 0 <= i < ks.len() ==> (#[trigger] cs[i]).len() == items.len()
        &&& forall|i: int| 0 <= i < ks.len() ==> (#[trigger] ss[i]).len() == m.n()
        &&& forall|i: int, u: int| 0 <= i < ks.len() && 0 <= u < items.len() ==> (#[trigger] cs[i][u] <==> in_closure(m, items, ks[i]@, u))
        &&& forall|i: int, j: int| 0 <= i < ks.len() && 0 <= j < ks.len() && i != j ==> #[trigger] ks[i]@ != #[trigger] ks[j]@
        &&& forall|i: int, x: int| 0 <= i < ks.len() && 0 <= x < m.n() ==> #[trigger] self.moves(m, items, i, x)
        &&& forall|j: int| 0 < j < ks.len() ==> #[trigger] entered_earlier(ss, m.n(), j)
        &&& numbered_in_order(ss, m.n(), ks.len() as int)
    }

    /// State `i` moves on `x` as its goto says.
    pub open spec fn moves(&self, m: GrammarModel, items: Seq<(usize, usize, usize)>, i: int, x: int) -> bool {
        move_ok(m, items, self.kernels@, self.kernels@[i]@, self.closures@[i]@, x, self.shifts@[i]@[x])
    }
}

/// Position `(i1, x1)` comes before `(i2, x2)` in row-major order.
pub open spec fn pos_lt(i1: int, x1: int, i2: int, x2: int) -> bool {
    i1 < i2 || (i1 == i2 && x1 < x2)
}

/// `(i, x)` is the first move into state `j`, in row-major order.
pub open spec fn first_move(shifts: Seq<Vec<Option<usize>>>, n: int, j: int, i: int, x: int) -> bool {
    &&& 0 <= i < shifts.len()
    &&& 0 <= x < n
    &&& shifts[i]@[x] == Some(j as usize)
    &&& forall|i2: int, x2: int| 0 <= i2 < shifts.len() && 0 <= x2 < n && pos_lt(i2, x2, i, x) ==> #[trigger] shifts[i2]@[x2] != Some(j as usize)
}

/// States are numbered in the order the work-list finds them: the first move
/// into a later state comes after the first move into an earlier one.
pub open spec fn numbered_in_order(shifts: Seq<Vec<Option<usize>>>, n: int, count: int) -> bool {
    forall|j1: int, j2: int, i1: int, x1: int, i2: int, x2: int|
        0 < j1 < j2 < count && #[trigger] first_move(shifts, n, j1, i1, x1) && #[trigger] first_move(shifts, n, j2, i2, x2)
            ==> pos_lt(i1, x1, i2, x2)
}

/// State `j` is the target of a move from an earlier state.
pub open spec fn entered_earlier(shifts: Seq<Vec<Option<usize>>>, n: int, j: int) -> bool {
    exists|i: int, x: int| 0 <= i < j && 0 <= x < n && #[trigger] shifts[i]@[x] == Some(j as usize)
}

/// Some item is in the goto on `x` of the state with kernel `kernel` and
/// closure `closure`.
pub open spec fn goto_nonempty(m: GrammarModel, items: Seq<(usize, usize, usize)>, kernel: Seq<bool>, closure: Seq<bool>, x: int) -> bool {
    exists|u: int| 0 <= u < items.len() && #[trigger] in_goto(m, items, kernel, closure, x, u)
}

/// The move on `x` from the state with kernel `kernel` and closure `closure`
/// is `e`: none when the
/// goto is empty, else the state whose kernel is the goto.
pub open spec fn move_ok(
    m: GrammarModel,
    items: Seq<(usize, usize, usize)>,
    kernels: Seq<Vec<bool>>,
    kernel: Seq<bool>,
    closure: Seq<bool>,
    x: int,
    e: Option<usize>,
) -> bool {
    match e {
        Some(j) => j < kernels.len() && goto_nonempty(m, items, kernel, closure, x) && forall|u: int|
            0 <= u < items.len() ==> (kernels[j as int]@[u] <==> #[trigger] in_goto(m, items, kernel, closure, x, u)),
        None => !goto_nonempty(m, items, kernel, closure, x),
    }
}

proof fn lemma_move_ok_extend(m: GrammarModel, items: Seq<(usize, usize, usize)>, ks: Seq<Vec<bool>>, k: Vec<bool>)
    ensures
        forall|kk: Seq<bool>, c: Seq<bool>, x: int, e: Option<usize>| move_ok(m, items, ks, kk, c, x, e) ==> #[trigger] move_ok(m, items, ks.push(k), kk, c, x, e),
{
    assert forall|kk: Seq<bool>, c: Seq<bool>, x: int, e: Option<usize>| move_ok(m, items, ks, kk, c, x, e) implies #[trigger] move_ok(m, items, ks.push(k), kk, c, x, e) by {
        if let Some(j) = e {
            assert(ks.push(k)[j as int] == ks[j as int]);
        }
    }
}

/// Whether some flag of `v` is set.
fn any_flag(v: &Vec<bool>) -> (b: bool)
    ensures
        b == exists|u: int| 0 <= u < v.len() && v[u],
{
    let mut u: usize = 0;
    while u < v.len()
        invariant
            u <= v.len(),
            forall|k: int| 0 <= k < u ==> !v[k],
        decreases v.len() - u,
    {
        if v[u] {
            return true;
        }
        u = u + 1;
    }
    false
}

/// Whether `a` and `b` hold the same flags.
fn same_flags(a: &Vec<bool>, b: &Vec<bool>) -> (r: bool)
    ensures
        r == (a@ == b@),
{
    if a.len() != b.len() {
        return false;
    }
    let mut u: usize = 0;
    while u < a.len()
        invariant
            a.len() == b.len(),
            u <= a.len(),
            forall|k: int| 0 <= k < u ==> a[k] == b[k],
        decreases a.len() - u,
    {
        if a[u] != b[u] {
            return false;
        }
        u = u + 1;
    }
    assert(a@ =~= b@);
    true
}

/// The state whose kernel is `k`, if there is one.
fn find_kernel(kernels: &Vec<Vec<bool>>, k: &Vec<bool>) -> (r: Option<usize>)
    ensures
        r matches Some(j) ==> j < kernels.len() && kernels[j as int]@ == k@,
        r is None ==> forall|j: int| 0 <= j < kernels.len() ==> kernels[j]@ != k@,
{
    let mut j: usize = 0;
    while j < kernels.len()
        invariant
            j <= kernels.len(),
            forall|j2: int| 0 <= j2 < j ==> kernels[j2]@ != k@,
        decreases kernels.len() - j,
    {
        if same_flags(&kernels[j], k) {
            return Some(j);
        }
        j = j + 1;
    }
    None
}

/// Builds the automaton from the start kernel. Each kernel met is compared by
/// content with those of the states so far and gets a new state only if it is
/// new; since there are finitely many kernels, the work-list empties.
pub fn build_automaton(g: &Grammar, table: &ItemTable, adj: &Vec<Vec<usize>>, start: Vec<bool>) -> (a: Automaton)
    requires
        g.inv(),
        table.ok(g@),
        adj.len() == table.items.len(),
        lists_edges(adj@, predict_rel(g@, table.items@)),
        start.len() == table.items.len(),
    ensures
        a.ok(g@, table.items@, start@),
{
    let ghost m = g@;
    let ghost its = table.items@;
    let ghost total = its.len();
    let n = g.num_symbols();
    let first_closure = table.closure(g, adj, &start);
    let mut kernels: Vec<Vec<bool>> = Vec::new();
    let mut closures: Vec<Vec<bool>> = Vec::new();
    let mut shifts: Vec<Vec<Option<usize>>> = Vec::new();
    let ghost start_view = start@;
    kernels.push(start);
    closures.push(first_closure);
    let ghost mut parent: Seq<(int, int)> = seq![(0int, 0int)];
    let mut i: usize = 0;
    proof {
        lemma_distinct_flags_bound(flag_views(kernels@), total);
    }
    while i < kernels.len()
        invariant
            g.inv(),
            m == g@,
            its == table.items@,
            total == its.len(),
            table.ok(m),
            adj.len() == total,
            lists_edges(adj@, predict_rel(m, its)),
            n == m.n(),
            kernels.len() >= 1,
            kernels@[0]@ == start_view,
            closures.len() == kernels.len(),
            shifts.len() == i,
            i <= kernels.len(),
            kernels.len() <= pow2(total),
            parent.len() == kernels.len(),
            forall|j: int| 0 <= j < kernels.len() ==> (#[trigger] kernels@[j]).len() == total,
            forall|j: int| 0 <= j < kernels.len() ==> (#[trigger] closures@[j]).len() == total,
            forall|j: int, u: int| 0 <= j < kernels.len() && 0 <= u < total ==> (#[trigger] closures@[j][u] <==> in_closure(m, its, kernels@[j]@, u)),
            forall|j1: int, j2: int| 0 <= j1 < kernels.len() && 0 <= j2 < kernels.len() && j1 != j2 ==> #[trigger] kernels@[j1]@ != #[trigger] kernels@[j2]@,
            forall|i2: int| 0 <= i2 < i ==> (#[trigger] shifts@[i2]).len() == n,
            forall|i2: int, x: int| 0 <= i2 < i && 0 <= x < n ==> #[trigger] move_ok(m, its, kernels@, kernels@[i2]@, closures@[i2]@, x, shifts@[i2]@[x]),
            forall|j: int| 0 < j < kernels.len() ==> 0 <= (#[trigger] parent[j]).0 < j && 0 <= parent[j].1 < n,
            forall|j: int| 0 < j < kernels.len() && (#[trigger] parent[j]).0 < i ==> shifts@[parent[j].0]@[parent[j].1] == Some(j as usize),
            forall|j: int| 0 < j < kernels.len() ==> (#[trigger] parent[j]).0 < i,
            forall|j1: int, j2: int| 0 < j1 < j2 < kernels.len() ==> pos_lt((#[trigger] parent[j1]).0, parent[j1].1, (#[trigger] parent[j2]).0, parent[j2].1),
            forall|j: int, i2: int, x2: int| 0 < j < kernels.len() && 0 <= i2 < i && 0 <= x2 < n && pos_lt(i2, x2, (#[trigger] parent[j]).0, parent[j].1)
                ==> #[trigger] shifts@[i2]@[x2] != Some(j as usize),
        decreases pow2(total) - i,
    {
        let mut row: Vec<Option<usize>> = Vec::new();
        let mut x: usize = 0;
        while x < n
            invariant
                g.inv(),
                m == g@,
                its == table.items@,
                total == its.len(),
                table.ok(m),
                adj.len() == total,
                lists_edges(adj@, predict_rel(m, its)),
                n == m.n(),
                kernels.len() >= 1,
                kernels@[0]@ == start_view,
                closures.len() == kernels.len(),
                shifts.len() == i,
                i < kernels.len(),
                kernels.len() <= pow2(total),
                parent.len() == kernels.len(),
                x <= n,
                row.len() == x,
                forall|j: int| 0 <= j < kernels.len() ==> (#[trigger] kernels@[j]).len() == total,
                forall|j: int| 0 <= j < kernels.len() ==> (#[trigger] closures@[j]).len() == total,
                forall|j: int, u: int| 0 <= j < kernels.len() && 0 <= u < total ==> (#[trigger] closures@[j][u] <==> in_closure(m, its, kernels@[j]@, u)),
                forall|j1: int, j2: int| 0 <= j1 < kernels.len() && 0 <= j2 < kernels.len() && j1 != j2 ==> #[trigger] kernels@[j1]@ != #[trigger] kernels@[j2]@,
                forall|i2: int| 0 <= i2 < i ==> (#[trigger] shifts@[i2]).len() == n,
                forall|i2: int, x2: int| 0 <= i2 < i && 0 <= x2 < n ==> #[trigger] move_ok(m, its, kernels@, kernels@[i2]@, closures@[i2]@, x2, shifts@[i2]@[x2]),
                forall|x2: int| 0 <= x2 < x ==> #[trigger] move_ok(m, its, kernels@, kernels@[i as int]@, closures@[i as int]@, x2, row@[x2]),
                forall|j: int| 0 < j < kernels.len() ==> 0 <= (#[trigger] parent[j]).0 < j && 0 <= parent[j].1 < n,
                forall|j: int| 0 < j < kernels.len() && (#[trigger] parent[j]).0 < i ==> shifts@[parent[j].0]@[parent[j].1] == Some(j as usize),
                forall|j: int| 0 < j < kernels.len() && (#[trigger] parent[j]).0 == i ==> parent[j].1 < x && row@[parent[j].1] == Some(j as usize),
                forall|j: int| 0 < j < kernels.len() ==> (#[trigger] parent[j]).0 <= i,
                forall|j1: int, j2: int| 0 < j1 < j2 < kernels.len() ==> pos_lt((#[trigger] parent[j1]).0, parent[j1].1, (#[trigger] parent[j2]).0, parent[j2].1),
                forall|j: int, i2: int, x2: int| 0 < j < kernels.len() && 0 <= i2 < i && 0 <= x2 < n && pos_lt(i2, x2, (#[trigger] parent[j]).0, parent[j].1)
                    ==> #[trigger] shifts@[i2]@[x2] != Some(j as usize),
                forall|j: int, x2: int| 0 < j < kernels.len() && 0 <= x2 < x && pos_lt(i as int, x2, (#[trigger] parent[j]).0, parent[j].1)
                    ==> #[trigger] row@[x2] != Some(j as usize),
            decreases n - x,
        {
            let ghost parent_before = parent;
            let ghost row0 = row@;
            let ghost len0 = kernels.len();
            let ghost ks0 = kernels@;
            let k = table.goto(g, &kernels[i], &closures[i], x);
            let ghost ki = kernels@[i as int]@;
            let ghost ci = closures@[i as int]@;
            if any_flag(&k) {
                proof {
                    let u = choose|u: int| 0 <= u < k.len() && k[u];
                    assert(in_goto(m, its, ki, ci, x as int, u));
                }
                match find_kernel(&kernels, &k) {
                    Some(j) => {
                        row.push(Some(j));
                        proof {
                            assert(move_ok(m, its, kernels@, ki, ci, x as int, Some(j)));
                        }
                    },
                    None => {
                        let c = table.closure(g, adj, &k);
                        let j = kernels.len();
                        let ghost old_ks = kernels@;
                        let ghost old_cs = closures@;
                        kernels.push(k);
                        closures.push(c);
                        proof {
                            lemma_move_ok_extend(m, its, old_ks, k);
                            assert(kernels@ == old_ks.push(k));
                            assert forall|i2: int| 0 <= i2 < i + 1 implies closures@[i2] == old_cs[i2] && kernels@[i2] == old_ks[i2] by {}
                            parent = parent.push((i as int, x as int));
                            assert forall|q: int| 0 <= q < flag_views(kernels@).len() implies (#[trigger] flag_views(kernels@)[q]).len() == total by {
                                assert(flag_views(kernels@)[q] == kernels@[q]@);
                            }
                            assert forall|q1: int, q2: int| 0 <= q1 < flag_views(kernels@).len() && 0 <= q2 < flag_views(kernels@).len() && q1 != q2 implies #[trigger] flag_views(kernels@)[q1] != #[trigger] flag_views(kernels@)[q2] by {
                                assert(flag_views(kernels@)[q1] == kernels@[q1]@);
                                assert(flag_views(kernels@)[q2] == kernels@[q2]@);
                            }
                            lemma_distinct_flags_bound(flag_views(kernels@), total);
                            assert(move_ok(m, its, kernels@, ki, ci, x as int, Some(j)));
                        }
                        row.push(Some(j));
                    },
                }
            } else {
                proof {
                    if goto_nonempty(m, its, ki, ci, x as int) {
                        let u = choose|u: int| 0 <= u < its.len() && #[trigger] in_goto(m, its, ki, ci, x as int, u);
                        assert(k[u]);
                    }
                }
                row.push(None);
            }
            proof {
                assert(row@ == row0.push(row@[x as int]));
                assert forall|j: int| 0 < j < len0 implies #[trigger] parent[j] == parent_before[j] by {}
                assert(kernels.len() == len0 || (kernels.len() == len0 + 1 && parent[len0 as int] == (i as int, x as int)));
                assert(match row@[x as int] { Some(j) => j < kernels.len() && (j < len0 || j == len0 && kernels.len() == len0 + 1), None => true });
                assert forall|j: int, i2: int, x2: int| 0 < j < kernels.len() && 0 <= i2 < i && 0 <= x2 < n && pos_lt(i2, x2, (#[trigger] parent[j]).0, parent[j].1)
                    implies #[trigger] shifts@[i2]@[x2] != Some(j as usize) by {
                    if j < len0 {
                        assert(parent[j] == parent_before[j]);
                    } else {
                        assert(move_ok(m, its, ks0, ks0[i2]@, closures@[i2]@, x2, shifts@[i2]@[x2]));
                    }
                }
                assert forall|j: int, x2: int| 0 < j < kernels.len() && 0 <= x2 < x + 1 && pos_lt(i as int, x2, (#[trigger] parent[j]).0, parent[j].1)
                    implies #[trigger] row@[x2] != Some(j as usize) by {
                    if x2 < x {
                        assert(row@[x2] == row0[x2]);
                        if j < len0 {
                            assert(parent[j] == parent_before[j]);
                        } else {
                            assert(move_ok(m, its, ks0, ks0[i as int]@, closures@[i as int]@, x2, row0[x2]));
                        }
                    } else if j < len0 {
                        assert(parent[j] == parent_before[j]);
                        assert(parent_before[j].0 < i || (parent_before[j].0 == i && parent_before[j].1 < x));
                    }
                }
            }
            x = x + 1;
        }
        shifts.push(row);
        i = i + 1;
    }
    let a = Automaton { kernels, closures, shifts };
    proof {
        assert forall|i2: int, x2: int| 0 <= i2 < a.kernels@.len() && 0 <= x2 < m.n() implies #[trigger] a.moves(m, its, i2, x2) by {
            assert(move_ok(m, its, kernels@, kernels@[i2]@, closures@[i2]@, x2, shifts@[i2]@[x2]));
        }
        let ks = a.kernels@;
        let ss = a.shifts@;
        assert forall|j: int| 0 < j < ks.len() implies #[trigger] entered_earlier(ss, m.n(), j) by {
            let p = parent[j];
            assert(ss[p.0]@[p.1] == Some(j as usize));
        }
        assert forall|j: int| 0 < j < ks.len() implies first_move(ss, m.n(), j, #[trigger] parent[j].0, parent[j].1) by {
            let p = parent[j];
            assert(ss[p.0]@[p.1] == Some(j as usize));
            assert forall|i2: int, x2: int| 0 <= i2 < ss.len() && 0 <= x2 < m.n() && pos_lt(i2, x2, p.0, p.1) implies #[trigger] ss[i2]@[x2] != Some(j as usize) by {
                assert(shifts@[i2]@[x2] != Some(j as usize));
            }
        }
        assert forall|j1: int, j2: int, i1: int, x1: int, i2: int, x2: int|
            0 < j1 < j2 < ks.len() && #[trigger] first_move(ss, m.n(), j1, i1, x1) && #[trigger] first_move(ss, m.n(), j2, i2, x2)
            implies pos_lt(i1, x1, i2, x2) by {
            let first_of_j1 = parent[j1];
            let first_of_j2 = parent[j2];
            assert(first_move(ss, m.n(), j1, first_of_j1.0, first_of_j1.1));
            assert(first_move(ss, m.n(), j2, first_of_j2.0, first_of_j2.1));
            if pos_lt(i1, x1, first_of_j1.0, first_of_j1.1) {
                assert(ss[i1]@[x1] != Some(j1 as usize));
            }
            if pos_lt(first_of_j1.0, first_of_j1.1, i1, x1) {
                assert(ss[first_of_j1.0]@[first_of_j1.1] != Some(j1 as usize));
            }
            if pos_lt(i2, x2, first_of_j2.0, first_of_j2.1) {
                assert(ss[i2]@[x2] != Some(j2 as usize));
            }
            if pos_lt(first_of_j2.0, first_of_j2.1, i2, x2) {
                assert(ss[first_of_j2.0]@[first_of_j2.1] != Some(j2 as usize));
            }
        }
    }
    a
}

} // verus!
