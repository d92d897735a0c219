//! The analysis of a grammar: the nullable fixpoint, and the FIRST and FOLLOW
//! tables as reachability in graphs drawn from its alternatives.
use vstd::prelude::*;
use crate::model::GrammarModel;
use crate::reach::{count_marked, lemma_count_marked_bound, lemma_count_marked_set, lists_edges, reachable_set, reaches, reaches_from};

verus! {

/// A vector of `n` cleared flags.
pub(crate) fn cleared(n: usize) -> (r: Vec<bool>)
    ensures
        r.len() == n,
        forall|i: int| 0 <= i < n ==> !r[i],
{
    let mut r: Vec<bool> = Vec::new();
    let mut i: usize = 0;
    while i < n
        invariant
            i <= n,
            r.len() == i,
            forall|k: int| 0 <= k < i ==> !r[k],
        decreases n - i,
    {
        r.push(false);
        i = i + 1;
    }
    r
}

proof fn lemma_count_cleared(s: Seq<bool>)
    requires
        forall|i: int| 0 <= i < s.len() ==> !s[i],
    ensures
        count_marked(s) == 0,
    decreases s.len(),
{
    if s.len() > 0 {
        lemma_count_cleared(s.drop_last());
    }
}

/// Whether every symbol of `r` is flagged in `marks`.
pub(crate) fn all_flagged(marks: &Vec<bool>, r: &Vec<usize>) -> (b: bool)
    requires
        forall|i: int| 0 <= i < r.len() ==> r[i] < marks.len(),
    ensures
        b == (forall|i: int| 0 <= i < r.len() ==> marks[#[trigger] r[i] as int]),
{
    let mut i: usize = 0;
    while i < r.len()
        invariant
            i <= r.len(),
            forall|k: int| 0 <= k < r.len() ==> r[k] < marks.len(),
            forall|k: int| 0 <= k < i ==> marks[#[trigger] r[k] as int],
        decreases r.len() - i,
    {
        if !marks[r[i]] {
            return false;
        }
        i = i + 1;
    }
    true
}

/// The least fixpoint of the nullable rule: `r[x]` exactly when `x` derives the
/// empty sequence.
pub(crate) fn compute_nullable(alts: &Vec<Vec<Vec<usize>>>, Ghost(m): Ghost<GrammarModel>) -> (r: Vec<bool>)
    requires
        m.wf(),
        m.alts == alts.deep_view(),
    ensures
        r.len() == m.n(),
        forall|x: int| 0 <= x < m.n() ==> (r[x] <==> m.derives_empty(x)),
{
    let n = alts.len();
    let mut nul = cleared(n);
    proof {
        lemma_count_cleared(nul@);
    }
    let mut changed = true;
    while changed
        invariant
            n == alts.len(),
            n == m.n(),
            m.wf(),
            m.alts == alts.deep_view(),
            nul.len() == n,
            forall|s: Set<int>| #[trigger] m.nullable_closed(s) ==> (forall|x: int|
                0 <= x < n && nul[x] ==> s.contains(x)),
            !changed ==> m.nullable_closed(GrammarModel::marked_set(nul@)),
        decreases 2 * (n - count_marked(nul@)) + if changed { 1int } else { 0int },
    {
        proof {
            lemma_count_marked_bound(nul@);
        }
        let ghost start = nul@;
        changed = false;
        let mut a: usize = 0;
        while a < n
            invariant
                n == alts.len(),
                n == m.n(),
                m.wf(),
                m.alts == alts.deep_view(),
                a <= n,
                nul.len() == n,
                count_marked(nul@) >= count_marked(start),
                changed ==> count_marked(nul@) > count_marked(start),
                !changed ==> nul@ == start,
                forall|s: Set<int>| #[trigger] m.nullable_closed(s) ==> (forall|x: int|
                    0 <= x < n && nul[x] ==> s.contains(x)),
                !changed ==> forall|a2: int, j2: int|
                    0 <= a2 < a && 0 <= j2 < m.alts[a2].len() && #[trigger] m.all_in(
                        GrammarModel::marked_set(nul@),
                        m.rhs(a2, j2),
                    ) ==> nul[a2],
            decreases n - a,
        {
            let na = alts[a].len();
            let mut j: usize = 0;
            while j < na
                invariant
                    n == alts.len(),
                    n == m.n(),
                    m.wf(),
                    m.alts == alts.deep_view(),
                    a < n,
                    na == alts[a as int].len(),
                    j <= na,
                    nul.len() == n,
                    count_marked(nul@) >= count_marked(start),
                    changed ==> count_marked(nul@) > count_marked(start),
                    !changed ==> nul@ == start,
                    forall|s: Set<int>| #[trigger] m.nullable_closed(s) ==> (forall|x: int|
                        0 <= x < n && nul[x] ==> s.contains(x)),
                    !changed ==> forall|a2: int, j2: int|
                        0 <= a2 < a && 0 <= j2 < m.alts[a2].len() && #[trigger] m.all_in(
                            GrammarModel::marked_set(nul@),
                            m.rhs(a2, j2),
                        ) ==> nul[a2],
                    !changed ==> forall|j2: int|
                        0 <= j2 < j && #[trigger] m.all_in(
                            GrammarModel::marked_set(nul@),
                            m.rhs(a as int, j2),
                        ) ==> nul[a as int],
                decreases na - j,
            {
                assert(alts[a as int][j as int]@ == m.rhs(a as int, j as int));
                if !nul[a] && all_flagged(&nul, &alts[a][j]) {
                    proof {
                        let r = m.rhs(a as int, j as int);
                        assert forall|s: Set<int>| #[trigger] m.nullable_closed(s) implies (forall|x: int|
                            0 <= x < n && nul@.update(a as int, true)[x] ==> s.contains(x)) by {
                            assert(m.all_in(s, r));
                        }
                        lemma_count_marked_set(nul@, a as int);
                    }
                    nul.set(a, true);
                    changed = true;
                } else {
                    proof {
                        if !changed && m.all_in(GrammarModel::marked_set(nul@), m.rhs(a as int, j as int)) {
                            let r = m.rhs(a as int, j as int);
                            assert forall|i: int| 0 <= i < r.len() implies nul[#[trigger] r[i] as int] by {
                                assert(GrammarModel::marked_set(nul@).contains(r[i] as int));
                            }
                        }
                    }
                }
                j = j + 1;
            }
            a = a + 1;
        }
        proof {
            lemma_count_marked_bound(nul@);
        }
    }
    proof {
        assert forall|x: int| 0 <= x < n implies (nul[x] <==> m.derives_empty(x)) by {
            if m.derives_empty(x) {
                assert(m.nullable_closed(GrammarModel::marked_set(nul@)));
            }
        }
    }
    nul
}


/// The end of the run of nullable symbols of `r` that starts at `lo`.
pub(crate) fn nullable_run(nul: &Vec<bool>, r: &Vec<usize>, lo: usize, Ghost(m): Ghost<GrammarModel>) -> (k: usize)
    requires
        lo <= r.len(),
        nul.len() == m.n(),
        forall|i: int| 0 <= i < r.len() ==> r[i] < m.n(),
        forall|x: int| 0 <= x < m.n() ==> (nul[x] <==> m.derives_empty(x)),
    ensures
        lo <= k <= r.len(),
        m.nullable_span(r@, lo as int, k as int),
        k < r.len() ==> !m.derives_empty(r[k as int] as int),
        forall|hi: int| lo <= hi <= r.len() ==> (m.nullable_span(r@, lo as int, hi) <==> hi <= k),
{
    let mut k = lo;
    while k < r.len() && nul[r[k]]
        invariant
            lo <= k <= r.len(),
            nul.len() == m.n(),
            forall|i: int| 0 <= i < r.len() ==> r[i] < m.n(),
            forall|x: int| 0 <= x < m.n() ==> (nul[x] <==> m.derives_empty(x)),
            m.nullable_span(r@, lo as int, k as int),
        decreases r.len() - k,
    {
        k = k + 1;
    }
    proof {
        assert forall|hi: int| lo <= hi <= r.len() && m.nullable_span(r@, lo as int, hi) implies hi <= k by {
            if hi > k {
                assert(m.derives_empty(r@[k as int] as int));
            }
        }
    }
    k
}


/// Appends `piece` to `out`.
pub(crate) fn extend(out: &mut Vec<usize>, piece: &Vec<usize>)
    ensures
        final(out)@ == old(out)@ + piece@,
        forall|x: usize| final(out)@.contains(x) <==> (old(out)@.contains(x) || piece@.contains(x)),
{
    let ghost start = old(out)@;
    let mut i: usize = 0;
    while i < piece.len()
        invariant
            i <= piece.len(),
            out@ == start + piece@.subrange(0, i as int),
        decreases piece.len() - i,
    {
        out.push(piece[i]);
        i = i + 1;
        assert(out@ =~= start + piece@.subrange(0, i as int));
    }
    assert(piece@.subrange(0, i as int) =~= piece@);
    proof {
        lemma_concat_contains(start, piece@);
    }
}

pub(crate) proof fn lemma_push_contains<A>(a: Seq<A>, v: A)
    ensures
        forall|x: A| a.push(v).contains(x) <==> (a.contains(x) || x == v),
{
    assert forall|x: A| a.push(v).contains(x) <==> (a.contains(x) || x == v) by {
        if a.push(v).contains(x) {
            let k = choose|k: int| 0 <= k < a.push(v).len() && a.push(v)[k] == x;
            if k < a.len() {
                assert(a[k] == x);
            }
        }
        if a.contains(x) {
            let k = choose|k: int| 0 <= k < a.len() && a[k] == x;
            assert(a.push(v)[k] == x);
        }
        if x == v {
            assert(a.push(v)[a.len() as int] == x);
        }
    }
}

proof fn lemma_concat_contains(a: Seq<usize>, b: Seq<usize>)
    ensures
        forall|x: usize| (a + b).contains(x) <==> (a.contains(x) || b.contains(x)),
{
    assert forall|x: usize| (a + b).contains(x) <==> (a.contains(x) || b.contains(x)) by {
        if (a + b).contains(x) {
            let k = choose|k: int| 0 <= k < (a + b).len() && (a + b)[k] == x;
            if k >= a.len() {
                assert(b[k - a.len()] == x);
            }
        }
        if a.contains(x) {
            let k = choose|k: int| 0 <= k < a.len() && a[k] == x;
            assert((a + b)[k] == x);
        } else if b.contains(x) {
            let k = choose|k: int| 0 <= k < b.len() && b[k] == x;
            assert((a + b)[a.len() + k] == x);
        }
    }
}

/// The symbols that `r` may begin with directly.
pub(crate) fn first_in_rhs(nul: &Vec<bool>, r: &Vec<usize>, Ghost(m): Ghost<GrammarModel>) -> (out: Vec<usize>)
    requires
        nul.len() == m.n(),
        forall|i: int| 0 <= i < r.len() ==> r[i] < m.n(),
        forall|x: int| 0 <= x < m.n() ==> (nul[x] <==> m.derives_empty(x)),
    ensures
        forall|b: usize| out@.contains(b) <==> m.first_in(r@, b as int),
{
    let run = nullable_run(nul, r, 0, Ghost(m));
    let mut out: Vec<usize> = Vec::new();
    let mut i: usize = 0;
    while i < r.len() && i <= run
        invariant
            i <= r.len(),
            i <= run + 1,
            m.nullable_span(r@, 0, run as int),
            forall|hi: int| 0 <= hi <= r.len() ==> (m.nullable_span(r@, 0, hi) <==> hi <= run),
            out@ == r@.subrange(0, i as int),
        decreases r.len() - i,
    {
        out.push(r[i]);
        i = i + 1;
        assert(out@ =~= r@.subrange(0, i as int));
    }
    proof {
        assert forall|b: usize| out@.contains(b) implies m.first_in(r@, b as int) by {
            let k = choose|k: int| 0 <= k < out@.len() && out@[k] == b;
            assert(r@[k] == b);
            assert(m.nullable_span(r@, 0, k));
        }
        assert forall|b: usize| m.first_in(r@, b as int) implies out@.contains(b) by {
            let k = choose|k: int| 0 <= k < r.len() && #[trigger] r@[k] as int == b as int && m.nullable_span(r@, 0, k);
            assert(out@[k] == b);
        }
    }
    out
}

/// Whether `y` ends `r`, up to symbols that derive the empty sequence.
pub(crate) fn ends_rhs(nul: &Vec<bool>, r: &Vec<usize>, y: usize, Ghost(m): Ghost<GrammarModel>) -> (b: bool)
    requires
        nul.len() == m.n(),
        forall|i: int| 0 <= i < r.len() ==> r[i] < m.n(),
        forall|x: int| 0 <= x < m.n() ==> (nul[x] <==> m.derives_empty(x)),
    ensures
        b == m.ends_in(r@, y as int),
{
    let mut i: usize = 0;
    while i < r.len()
        invariant
            i <= r.len(),
            nul.len() == m.n(),
            forall|k: int| 0 <= k < r.len() ==> r[k] < m.n(),
            forall|x: int| 0 <= x < m.n() ==> (nul[x] <==> m.derives_empty(x)),
            forall|k: int|
                0 <= k < i && #[trigger] r@[k] as int == y as int ==> !m.nullable_span(r@, k + 1, r.len() as int),
        decreases r.len() - i,
    {
        if r[i] == y {
            let k = nullable_run(nul, r, i + 1, Ghost(m));
            if k == r.len() {
                return true;
            }
        }
        i = i + 1;
    }
    false
}

/// The symbols that stand after `y` in `r`, up to symbols that derive the empty
/// sequence.
pub(crate) fn after_in_rhs(nul: &Vec<bool>, r: &Vec<usize>, y: usize, Ghost(m): Ghost<GrammarModel>) -> (out: Vec<usize>)
    requires
        nul.len() == m.n(),
        forall|i: int| 0 <= i < r.len() ==> r[i] < m.n(),
        forall|x: int| 0 <= x < m.n() ==> (nul[x] <==> m.derives_empty(x)),
    ensures
        forall|z: usize| out@.contains(z) <==> m.after_in(r@, y as int, z as int),
{
    let mut out: Vec<usize> = Vec::new();
    let mut i: usize = 0;
    while i < r.len()
        invariant
            i <= r.len(),
            nul.len() == m.n(),
            forall|k: int| 0 <= k < r.len() ==> r[k] < m.n(),
            forall|x: int| 0 <= x < m.n() ==> (nul[x] <==> m.derives_empty(x)),
            forall|z: usize|
                out@.contains(z) <==> exists|i2: int, q: int|
                    0 <= i2 < i && i2 < q < r.len() && #[trigger] r@[i2] as int == y as int
                        && #[trigger] r@[q] as int == z as int && m.nullable_span(r@, i2 + 1, q),
        decreases r.len() - i,
    {
        if r[i] == y {
            let run = nullable_run(nul, r, i + 1, Ghost(m));
            let ghost before = out@;
            let mut q = i + 1;
            while q < r.len() && q <= run
                invariant
                    i < r.len(),
                    r@[i as int] == y,
                    i + 1 <= q <= r.len(),
                    q <= run + 1,
                    forall|hi: int| i + 1 <= hi <= r.len() ==> (#[trigger] m.nullable_span(r@, i + 1, hi) <==> hi <= run),
                    out@ == before + r@.subrange(i + 1, q as int),
                decreases r.len() - q,
            {
                out.push(r[q]);
                q = q + 1;
                assert(out@ =~= before + r@.subrange(i + 1, q as int));
            }
            proof {
                assert forall|z: usize|
                    out@.contains(z) <==> exists|i2: int, q2: int|
                        0 <= i2 < i + 1 && i2 < q2 < r.len() && #[trigger] r@[i2] as int == y as int
                            && #[trigger] r@[q2] as int == z as int && m.nullable_span(r@, i2 + 1, q2) by {
                    if out@.contains(z) {
                        let k = choose|k: int| 0 <= k < out@.len() && out@[k] == z;
                        if k >= before.len() {
                            let q2 = i + 1 + (k - before.len());
                            assert(r@[q2] == z);
                            assert(m.nullable_span(r@, i + 1, q2));
                        } else {
                            assert(before.contains(z));
                        }
                    }
                    if exists|i2: int, q2: int|
                        0 <= i2 < i + 1 && i2 < q2 < r.len() && #[trigger] r@[i2] as int == y as int
                            && #[trigger] r@[q2] as int == z as int && m.nullable_span(r@, i2 + 1, q2) {
                        let (i2, q2) = choose|i2: int, q2: int|
                            0 <= i2 < i + 1 && i2 < q2 < r.len() && #[trigger] r@[i2] as int == y as int
                                && #[trigger] r@[q2] as int == z as int && m.nullable_span(r@, i2 + 1, q2);
                        if i2 < i {
                            assert(before.contains(z));
                            let k = choose|k: int| 0 <= k < before.len() && before[k] == z;
                            assert(out@[k] == z);
                        } else {
                            assert(out@[before.len() + (q2 - (i + 1))] == z);
                        }
                    }
                }
            }
        }
        i = i + 1;
    }
    out
}


/// What the analysis needs of the grammar's alternatives and nullable flags.
pub open spec fn analysis_input(m: GrammarModel, alts: &Vec<Vec<Vec<usize>>>, nul: &Vec<bool>) -> bool {
    &&& m.wf()
    &&& m.alts == alts.deep_view()
    &&& nul.len() == m.n()
    &&& forall|x: int| 0 <= x < m.n() ==> (nul[x] <==> m.derives_empty(x))
}

pub(crate) proof fn lemma_rhs_view(m: GrammarModel, alts: &Vec<Vec<Vec<usize>>>, a: int, j: int)
    requires
        m.wf(),
        m.alts == alts.deep_view(),
        m.is_alt(a, j),
    ensures
        alts[a][j]@ == m.rhs(a, j),
        forall|i: int| 0 <= i < alts[a][j].len() ==> alts[a][j][i] < m.n(),
{
    assert(alts[a][j]@ =~= m.rhs(a, j));
}

/// Successor lists of the FIRST graph.
fn first_graph(alts: &Vec<Vec<Vec<usize>>>, nul: &Vec<bool>, Ghost(m): Ghost<GrammarModel>) -> (adj: Vec<Vec<usize>>)
    requires
        analysis_input(m, alts, nul),
    ensures
        adj.len() == m.n(),
        lists_edges(adj@, m.first_rel()),
{
    let n = alts.len();
    let mut adj: Vec<Vec<usize>> = Vec::new();
    let mut a: usize = 0;
    while a < n
        invariant
            analysis_input(m, alts, nul),
            n == m.n(),
            a <= n,
            adj.len() == a,
            forall|a2: int, b: usize| 0 <= a2 < a ==> (#[trigger] adj@[a2]@.contains(b) <==> m.first_step(a2, b as int)),
        decreases n - a,
    {
        let mut succ: Vec<usize> = Vec::new();
        let na = alts[a].len();
        let mut j: usize = 0;
        while j < na
            invariant
                analysis_input(m, alts, nul),
                n == m.n(),
                a < n,
                na == m.alts[a as int].len(),
                j <= na,
                forall|b: usize| succ@.contains(b) <==> exists|j2: int| 0 <= j2 < j && #[trigger] m.is_alt(a as int, j2) && m.first_in(m.rhs(a as int, j2), b as int),
            decreases na - j,
        {
            proof {
                lemma_rhs_view(m, alts, a as int, j as int);
            }
            let piece = first_in_rhs(nul, &alts[a][j], Ghost(m));
            let ghost before = succ@;
            extend(&mut succ, &piece);
            proof {
                assert(m.is_alt(a as int, j as int));
                assert forall|b: usize| succ@.contains(b) <==> exists|j2: int| 0 <= j2 < j + 1 && #[trigger] m.is_alt(a as int, j2) && m.first_in(m.rhs(a as int, j2), b as int) by {
                    if piece@.contains(b) {
                        assert(m.is_alt(a as int, j as int) && m.first_in(m.rhs(a as int, j as int), b as int));
                    }
                    if before.contains(b) {
                        let j2 = choose|j2: int| 0 <= j2 < j && #[trigger] m.is_alt(a as int, j2) && m.first_in(m.rhs(a as int, j2), b as int);
                        assert(0 <= j2 < j + 1 && m.is_alt(a as int, j2));
                    }
                    if exists|j2: int| 0 <= j2 < j + 1 && #[trigger] m.is_alt(a as int, j2) && m.first_in(m.rhs(a as int, j2), b as int) {
                        let j2 = choose|j2: int| 0 <= j2 < j + 1 && #[trigger] m.is_alt(a as int, j2) && m.first_in(m.rhs(a as int, j2), b as int);
                        if j2 == j {
                            assert(piece@.contains(b));
                        } else {
                            assert(before.contains(b));
                        }
                    }
                }
            }
            j = j + 1;
        }
        proof {
            assert forall|b: usize| succ@.contains(b) <==> m.first_step(a as int, b as int) by {
                if m.first_step(a as int, b as int) {
                    let j2 = choose|j2: int| #[trigger] m.is_alt(a as int, j2) && m.first_in(m.rhs(a as int, j2), b as int);
                    assert(0 <= j2 < na);
                }
            }
        }
        adj.push(succ);
        a = a + 1;
    }
    proof {
        assert forall|x: int, k: int| 0 <= x < adj@.len() && 0 <= k < adj@[x]@.len() implies {
            &&& (#[trigger] adj@[x]@[k]) < adj@.len()
            &&& m.first_rel()(x, adj@[x]@[k] as int)
        } by {
            let b = adj@[x]@[k];
            assert(adj@[x]@.contains(b));
            assert(m.first_step(x, b as int));
            let j = choose|j: int| #[trigger] m.is_alt(x, j) && m.first_in(m.rhs(x, j), b as int);
            let i = choose|i: int| 0 <= i < m.rhs(x, j).len() && #[trigger] m.rhs(x, j)[i] as int == b as int && m.nullable_span(m.rhs(x, j), 0, i);
        }
        assert forall|x: int, b: int| #[trigger] m.first_rel()(x, b) implies 0 <= x < adj@.len() && 0 <= b < adj@.len() && adj@[x]@.contains(b as usize) by {
            let j = choose|j: int| #[trigger] m.is_alt(x, j) && m.first_in(m.rhs(x, j), b);
            let i = choose|i: int| 0 <= i < m.rhs(x, j).len() && #[trigger] m.rhs(x, j)[i] as int == b && m.nullable_span(m.rhs(x, j), 0, i);
            assert(m.first_step(x, (b as usize) as int));
        }
    }
    adj
}

/// Successor lists of the FOLLOW graph: `y` leads to each `a` that `y` ends an
/// alternative of.
fn follow_graph(alts: &Vec<Vec<Vec<usize>>>, nul: &Vec<bool>, Ghost(m): Ghost<GrammarModel>) -> (adj: Vec<Vec<usize>>)
    requires
        analysis_input(m, alts, nul),
    ensures
        adj.len() == m.n(),
        lists_edges(adj@, m.follow_rel()),
{
    let n = alts.len();
    let mut adj: Vec<Vec<usize>> = Vec::new();
    let mut y: usize = 0;
    while y < n
        invariant
            analysis_input(m, alts, nul),
            n == m.n(),
            y <= n,
            adj.len() == y,
            forall|y2: int, x: usize| 0 <= y2 < y ==> (#[trigger] adj@[y2]@.contains(x) <==> m.follow_step(y2, x as int)),
        decreases n - y,
    {
        let mut succ: Vec<usize> = Vec::new();
        let mut a: usize = 0;
        while a < n
            invariant
                analysis_input(m, alts, nul),
                n == m.n(),
                y < n,
                a <= n,
                forall|x: usize| succ@.contains(x) <==> (x < a && m.follow_step(y as int, x as int)),
            decreases n - a,
        {
            let na = alts[a].len();
            let mut found = false;
            let mut j: usize = 0;
            while j < na
                invariant
                    analysis_input(m, alts, nul),
                    n == m.n(),
                    a < n,
                    na == m.alts[a as int].len(),
                    j <= na,
                    found <==> exists|j2: int| 0 <= j2 < j && #[trigger] m.is_alt(a as int, j2) && m.ends_in(m.rhs(a as int, j2), y as int),
                decreases na - j,
            {
                proof {
                    lemma_rhs_view(m, alts, a as int, j as int);
                }
                if ends_rhs(nul, &alts[a][j], y, Ghost(m)) {
                    found = true;
                }
                assert(m.is_alt(a as int, j as int));
                j = j + 1;
            }
            let ghost before = succ@;
            if found {
                succ.push(a);
                proof {
                    lemma_push_contains(before, a);
                }
            }
            proof {
                assert(found <==> m.follow_step(y as int, a as int)) by {
                    if m.follow_step(y as int, a as int) {
                        let j2 = choose|j2: int| #[trigger] m.is_alt(a as int, j2) && m.ends_in(m.rhs(a as int, j2), y as int);
                        assert(0 <= j2 < na);
                    }
                }
                assert forall|x: usize| succ@.contains(x) <==> (x < a + 1 && m.follow_step(y as int, x as int)) by {
                    if found {
                        assert(succ@ == before.push(a));
                        assert(succ@.contains(x) <==> (before.contains(x) || x == a));
                    } else {
                        assert(succ@ == before);
                    }
                }
            }
            a = a + 1;
        }
        adj.push(succ);
        y = y + 1;
    }
    proof {
        assert forall|x: int, k: int| 0 <= x < adj@.len() && 0 <= k < adj@[x]@.len() implies {
            &&& (#[trigger] adj@[x]@[k]) < adj@.len()
            &&& m.follow_rel()(x, adj@[x]@[k] as int)
        } by {
            let b = adj@[x]@[k];
            assert(adj@[x]@.contains(b));
            assert(m.follow_step(x, b as int));
            let j = choose|j: int| #[trigger] m.is_alt(b as int, j) && m.ends_in(m.rhs(b as int, j), x);
        }
        assert forall|x: int, b: int| #[trigger] m.follow_rel()(x, b) implies 0 <= x < adj@.len() && 0 <= b < adj@.len() && adj@[x]@.contains(b as usize) by {
            let j = choose|j: int| #[trigger] m.is_alt(b, j) && m.ends_in(m.rhs(b, j), x);
            let i = choose|i: int| 0 <= i < m.rhs(b, j).len() && #[trigger] m.rhs(b, j)[i] as int == x && m.nullable_span(m.rhs(b, j), i + 1, m.rhs(b, j).len() as int);
            assert(m.follow_step(x, (b as usize) as int));
        }
    }
    adj
}

/// Successor lists of the relation "stands after, up to nullable symbols".
fn after_graph(alts: &Vec<Vec<Vec<usize>>>, nul: &Vec<bool>, Ghost(m): Ghost<GrammarModel>) -> (adj: Vec<Vec<usize>>)
    requires
        analysis_input(m, alts, nul),
    ensures
        adj.len() == m.n(),
        forall|y: int, k: int| 0 <= y < m.n() && 0 <= k < adj[y]@.len() ==> #[trigger] adj[y]@[k] < m.n(),
        forall|y: int, z: usize| 0 <= y < m.n() ==> (adj[y]@.contains(z) <==> m.after_step(y, z as int)),
{
    let n = alts.len();
    let mut adj: Vec<Vec<usize>> = Vec::new();
    let mut y: usize = 0;
    while y < n
        invariant
            analysis_input(m, alts, nul),
            n == m.n(),
            y <= n,
            adj.len() == y,
            forall|y2: int, z: usize| 0 <= y2 < y ==> (#[trigger] adj@[y2]@.contains(z) <==> m.after_step(y2, z as int)),
        decreases n - y,
    {
        let mut succ: Vec<usize> = Vec::new();
        let mut a: usize = 0;
        while a < n
            invariant
                analysis_input(m, alts, nul),
                n == m.n(),
                y < n,
                a <= n,
                forall|z: usize| succ@.contains(z) <==> exists|a2: int, j2: int| 0 <= a2 < a && #[trigger] m.is_alt(a2, j2) && m.after_in(m.rhs(a2, j2), y as int, z as int),
            decreases n - a,
        {
            let na = alts[a].len();
            let mut j: usize = 0;
            while j < na
                invariant
                    analysis_input(m, alts, nul),
                    n == m.n(),
                    y < n,
                    a < n,
                    na == m.alts[a as int].len(),
                    j <= na,
                    forall|z: usize| succ@.contains(z) <==> exists|a2: int, j2: int| (0 <= a2 < a || (a2 == a && j2 < j)) && #[trigger] m.is_alt(a2, j2) && m.after_in(m.rhs(a2, j2), y as int, z as int),
                decreases na - j,
            {
                proof {
                    lemma_rhs_view(m, alts, a as int, j as int);
                }
                let piece = after_in_rhs(nul, &alts[a][j], y, Ghost(m));
                let ghost before = succ@;
                extend(&mut succ, &piece);
                proof {
                    assert(m.is_alt(a as int, j as int));
                    assert forall|z: usize| succ@.contains(z) <==> exists|a2: int, j2: int| (0 <= a2 < a || (a2 == a && j2 < j + 1)) && #[trigger] m.is_alt(a2, j2) && m.after_in(m.rhs(a2, j2), y as int, z as int) by {
                        if piece@.contains(z) {
                            assert(m.is_alt(a as int, j as int) && m.after_in(m.rhs(a as int, j as int), y as int, z as int));
                        }
                        if before.contains(z) {
                            let (a2, j2) = choose|a2: int, j2: int| (0 <= a2 < a || (a2 == a && j2 < j)) && #[trigger] m.is_alt(a2, j2) && m.after_in(m.rhs(a2, j2), y as int, z as int);
                            assert((0 <= a2 < a || (a2 == a && j2 < j + 1)) && m.is_alt(a2, j2));
                        }
                        if exists|a2: int, j2: int| (0 <= a2 < a || (a2 == a && j2 < j + 1)) && #[trigger] m.is_alt(a2, j2) && m.after_in(m.rhs(a2, j2), y as int, z as int) {
                            let (a2, j2) = choose|a2: int, j2: int| (0 <= a2 < a || (a2 == a && j2 < j + 1)) && #[trigger] m.is_alt(a2, j2) && m.after_in(m.rhs(a2, j2), y as int, z as int);
                            if a2 == a && j2 == j {
                                assert(piece@.contains(z));
                            } else {
                                assert(before.contains(z));
                            }
                        }
                    }
                }
                j = j + 1;
            }
            proof {
                assert forall|z: usize| succ@.contains(z) <==> exists|a2: int, j2: int| 0 <= a2 < a + 1 && #[trigger] m.is_alt(a2, j2) && m.after_in(m.rhs(a2, j2), y as int, z as int) by {
                    if exists|a2: int, j2: int| 0 <= a2 < a + 1 && #[trigger] m.is_alt(a2, j2) && m.after_in(m.rhs(a2, j2), y as int, z as int) {
                        let (a2, j2) = choose|a2: int, j2: int| 0 <= a2 < a + 1 && #[trigger] m.is_alt(a2, j2) && m.after_in(m.rhs(a2, j2), y as int, z as int);
                        assert(0 <= a2 < a || (a2 == a && j2 < na));
                    }
                }
            }
            a = a + 1;
        }
        proof {
            assert forall|z: usize| succ@.contains(z) <==> m.after_step(y as int, z as int) by {
                if m.after_step(y as int, z as int) {
                    let (a2, j2) = choose|a2: int, j2: int| #[trigger] m.is_alt(a2, j2) && m.after_in(m.rhs(a2, j2), y as int, z as int);
                    assert(0 <= a2 < n);
                }
            }
        }
        adj.push(succ);
        y = y + 1;
    }
    proof {
        assert forall|x: int, k: int| 0 <= x < m.n() && 0 <= k < adj[x]@.len() implies #[trigger] adj[x]@[k] < m.n() by {
            let z = adj@[x]@[k];
            assert(adj@[x]@.contains(z));
            assert(m.after_step(x, z as int));
            let (a, j) = choose|a: int, j: int| #[trigger] m.is_alt(a, j) && m.after_in(m.rhs(a, j), x, z as int);
            let (i, q) = choose|i: int, q: int| 0 <= i < q < m.rhs(a, j).len() && #[trigger] m.rhs(a, j)[i] as int == x && #[trigger] m.rhs(a, j)[q] as int == z as int && m.nullable_span(m.rhs(a, j), i + 1, q);
        }
    }
    adj
}


/// The flags set in `a` or in `b`.
pub(crate) fn union_flags(a: &Vec<bool>, b: &Vec<bool>) -> (r: Vec<bool>)
    requires
        a.len() == b.len(),
    ensures
        r.len() == a.len(),
        forall|t: int| 0 <= t < a.len() ==> (r[t] <==> (a[t] || b[t])),
{
    let n = a.len();
    let mut r: Vec<bool> = Vec::new();
    let mut t: usize = 0;
    while t < n
        invariant
            n == a.len(),
            n == b.len(),
            r.len() == t,
            t <= n,
            forall|k: int| 0 <= k < t ==> (r[k] <==> (a[k] || b[k])),
        decreases n - t,
    {
        r.push(a[t] || b[t]);
        t = t + 1;
    }
    r
}

/// `n` flags of which only `x` is set.
pub(crate) fn single(n: usize, x: usize) -> (r: Vec<bool>)
    requires
        x < n,
    ensures
        r.len() == n,
        forall|i: int| 0 <= i < n ==> (r[i] <==> i == x),
{
    let mut r = cleared(n);
    r.set(x, true);
    r
}

proof fn lemma_single_source(edge: spec_fn(int, int) -> bool, src: Seq<bool>, x: int)
    requires
        0 <= x < src.len(),
        forall|i: int| 0 <= i < src.len() ==> (src[i] <==> i == x),
    ensures
        forall|v: int| reaches_from(edge, src, v) <==> reaches(edge, x, v),
{
    assert forall|v: int| reaches(edge, x, v) implies reaches_from(edge, src, v) by {
        assert(src[x]);
    }
}

/// The FIRST table: `r[x][t]` exactly when terminal `t` begins a string that `x`
/// derives.
pub(crate) fn first_table(
    alts: &Vec<Vec<Vec<usize>>>,
    nul: &Vec<bool>,
    terminal: &Vec<bool>,
    Ghost(m): Ghost<GrammarModel>,
) -> (r: Vec<Vec<bool>>)
    requires
        analysis_input(m, alts, nul),
        terminal.len() == m.n(),
        forall|x: int| 0 <= x < m.n() ==> terminal[x] == m.is_terminal(x),
    ensures
        r.len() == m.n(),
        forall|x: int| 0 <= x < m.n() ==> (#[trigger] r[x]).len() == m.n(),
        forall|x: int, t: int| 0 <= x < m.n() && 0 <= t < m.n() ==> (r[x][t] <==> m.in_first(x, t)),
{
    let n = alts.len();
    let adj = first_graph(alts, nul, Ghost(m));
    let mut table: Vec<Vec<bool>> = Vec::new();
    let mut x: usize = 0;
    while x < n
        invariant
            analysis_input(m, alts, nul),
            n == m.n(),
            adj.len() == n,
            lists_edges(adj@, m.first_rel()),
            terminal.len() == n,
            forall|v: int| 0 <= v < n ==> terminal[v] == m.is_terminal(v),
            x <= n,
            table.len() == x,
            forall|x2: int| 0 <= x2 < x ==> (#[trigger] table[x2]).len() == n,
            forall|x2: int, t: int| 0 <= x2 < x && 0 <= t < n ==> (table[x2][t] <==> m.in_first(x2, t)),
        decreases n - x,
    {
        let src = single(n, x);
        let reached = reachable_set(&adj, &src, Ghost(m.first_rel()));
        proof {
            lemma_single_source(m.first_rel(), src@, x as int);
        }
        let mut row: Vec<bool> = Vec::new();
        let mut t: usize = 0;
        while t < n
            invariant
                n == m.n(),
                x < n,
                reached.len() == n,
                terminal.len() == n,
                forall|v: int| 0 <= v < n ==> terminal[v] == m.is_terminal(v),
                forall|v: int| 0 <= v < n ==> (reached[v] <==> reaches(m.first_rel(), x as int, v)),
                t <= n,
                row.len() == t,
                forall|k: int| 0 <= k < t ==> (row[k] <==> m.in_first(x as int, k)),
            decreases n - t,
        {
            row.push(reached[t] && terminal[t]);
            t = t + 1;
        }
        table.push(row);
        x = x + 1;
    }
    table
}

/// Each symbol's direct followers: `r[y][t]` exactly when `t` begins something
/// that stands after `y`.
fn direct_follow_table(
    alts: &Vec<Vec<Vec<usize>>>,
    nul: &Vec<bool>,
    first: &Vec<Vec<bool>>,
    Ghost(m): Ghost<GrammarModel>,
) -> (r: Vec<Vec<bool>>)
    requires
        analysis_input(m, alts, nul),
        first.len() == m.n(),
        forall|x: int| 0 <= x < m.n() ==> (#[trigger] first[x]).len() == m.n(),
        forall|x: int, t: int| 0 <= x < m.n() && 0 <= t < m.n() ==> (first[x][t] <==> m.in_first(x, t)),
    ensures
        r.len() == m.n(),
        forall|y: int| 0 <= y < m.n() ==> (#[trigger] r[y]).len() == m.n(),
        forall|y: int, t: int| 0 <= y < m.n() && 0 <= t < m.n() ==> (r[y][t] <==> m.direct_follow(y, t)),
{
    let n = alts.len();
    let adj = after_graph(alts, nul, Ghost(m));
    let mut table: Vec<Vec<bool>> = Vec::new();
    let mut y: usize = 0;
    while y < n
        invariant
            analysis_input(m, alts, nul),
            n == m.n(),
            adj.len() == n,
            forall|y2: int, k: int| 0 <= y2 < n && 0 <= k < adj[y2]@.len() ==> #[trigger] adj[y2]@[k] < n,
            forall|y2: int, z: usize| 0 <= y2 < n ==> (adj[y2]@.contains(z) <==> m.after_step(y2, z as int)),
            first.len() == n,
            forall|x: int| 0 <= x < n ==> (#[trigger] first[x]).len() == n,
            forall|x: int, t: int| 0 <= x < n && 0 <= t < n ==> (first[x][t] <==> m.in_first(x, t)),
            y <= n,
            table.len() == y,
            forall|y2: int| 0 <= y2 < y ==> (#[trigger] table[y2]).len() == n,
            forall|y2: int, t: int| 0 <= y2 < y && 0 <= t < n ==> (table[y2][t] <==> m.direct_follow(y2, t)),
        decreases n - y,
    {
        let mut row = cleared(n);
        let len = adj[y].len();
        let mut k: usize = 0;
        while k < len
            invariant
                n == m.n(),
                y < n,
                adj.len() == n,
                len == adj[y as int]@.len(),
                forall|y2: int, k2: int| 0 <= y2 < n && 0 <= k2 < adj[y2]@.len() ==> #[trigger] adj[y2]@[k2] < n,
                first.len() == n,
                forall|x: int| 0 <= x < n ==> (#[trigger] first[x]).len() == n,
                k <= len,
                row.len() == n,
                forall|t: int| 0 <= t < n ==> (row[t] <==> exists|k2: int| 0 <= k2 < k && #[trigger] first[adj[y as int]@[k2] as int][t]),
            decreases len - k,
        {
            let z = adj[y][k];
            let ghost before = row@;
            row = union_flags(&row, &first[z]);
            proof {
                assert forall|t: int| 0 <= t < n implies (row[t] <==> exists|k2: int| 0 <= k2 < k + 1 && #[trigger] first[adj[y as int]@[k2] as int][t]) by {
                    if first[adj[y as int]@[k as int] as int][t] {
                        assert(0 <= k < k + 1);
                    }
                    if exists|k2: int| 0 <= k2 < k + 1 && #[trigger] first[adj[y as int]@[k2] as int][t] {
                        let k2 = choose|k2: int| 0 <= k2 < k + 1 && #[trigger] first[adj[y as int]@[k2] as int][t];
                        if k2 < k {
                            assert(before[t]);
                        }
                    }
                }
            }
            k = k + 1;
        }
        proof {
            assert forall|t: int| 0 <= t < n implies (row[t] <==> m.direct_follow(y as int, t)) by {
                if row[t] {
                    let k2 = choose|k2: int| 0 <= k2 < len && #[trigger] first[adj[y as int]@[k2] as int][t];
                    let z = adj[y as int]@[k2];
                    assert(adj[y as int]@.contains(z));
                    assert(m.after_step(y as int, z as int));
                    assert(m.in_first(z as int, t));
                }
                if m.direct_follow(y as int, t) {
                    let z = choose|z: int| #[trigger] m.after_step(y as int, z) && m.in_first(z, t);
                    let a_j = choose|a: int, j: int| #[trigger] m.is_alt(a, j) && m.after_in(m.rhs(a, j), y as int, z);
                    let (a, j) = a_j;
                    let (i, q) = choose|i: int, q: int| 0 <= i < q < m.rhs(a, j).len() && #[trigger] m.rhs(a, j)[i] as int == y as int && #[trigger] m.rhs(a, j)[q] as int == z && m.nullable_span(m.rhs(a, j), i + 1, q);
                    assert(m.after_step(y as int, (z as usize) as int));
                    assert(adj[y as int]@.contains(z as usize));
                    let k2 = choose|k2: int| 0 <= k2 < adj[y as int]@.len() && adj[y as int]@[k2] == z as usize;
                    assert(first[adj[y as int]@[k2] as int][t]);
                }
            }
        }
        table.push(row);
        y = y + 1;
    }
    table
}

/// The FOLLOW table: `r[x][t]` exactly when terminal `t` may immediately follow
/// `x`.
pub(crate) fn follow_table(
    alts: &Vec<Vec<Vec<usize>>>,
    nul: &Vec<bool>,
    first: &Vec<Vec<bool>>,
    Ghost(m): Ghost<GrammarModel>,
) -> (r: Vec<Vec<bool>>)
    requires
        analysis_input(m, alts, nul),
        first.len() == m.n(),
        forall|x: int| 0 <= x < m.n() ==> (#[trigger] first[x]).len() == m.n(),
        forall|x: int, t: int| 0 <= x < m.n() && 0 <= t < m.n() ==> (first[x][t] <==> m.in_first(x, t)),
    ensures
        r.len() == m.n(),
        forall|x: int| 0 <= x < m.n() ==> (#[trigger] r[x]).len() == m.n(),
        forall|x: int, t: int| 0 <= x < m.n() && 0 <= t < m.n() ==> (r[x][t] <==> m.in_follow(x, t)),
{
    let n = alts.len();
    let adj = follow_graph(alts, nul, Ghost(m));
    let direct = direct_follow_table(alts, nul, first, Ghost(m));
    let mut table: Vec<Vec<bool>> = Vec::new();
    let mut x: usize = 0;
    while x < n
        invariant
            analysis_input(m, alts, nul),
            n == m.n(),
            adj.len() == n,
            lists_edges(adj@, m.follow_rel()),
            direct.len() == n,
            forall|y: int| 0 <= y < n ==> (#[trigger] direct[y]).len() == n,
            forall|y: int, t: int| 0 <= y < n && 0 <= t < n ==> (direct[y][t] <==> m.direct_follow(y, t)),
            x <= n,
            table.len() == x,
            forall|x2: int| 0 <= x2 < x ==> (#[trigger] table[x2]).len() == n,
            forall|x2: int, t: int| 0 <= x2 < x && 0 <= t < n ==> (table[x2][t] <==> m.in_follow(x2, t)),
        decreases n - x,
    {
        let src = single(n, x);
        let reached = reachable_set(&adj, &src, Ghost(m.follow_rel()));
        proof {
            lemma_single_source(m.follow_rel(), src@, x as int);
        }
        let mut row = cleared(n);
        let mut y: usize = 0;
        while y < n
            invariant
                n == m.n(),
                x < n,
                reached.len() == n,
                direct.len() == n,
                forall|y2: int| 0 <= y2 < n ==> (#[trigger] direct[y2]).len() == n,
                y <= n,
                row.len() == n,
                forall|t: int| 0 <= t < n ==> (row[t] <==> exists|y2: int| 0 <= y2 < y && reached[y2] && #[trigger] direct[y2][t]),
            decreases n - y,
        {
            if reached[y] {
                let ghost before = row@;
                row = union_flags(&row, &direct[y]);
                proof {
                    assert forall|t: int| 0 <= t < n implies (row[t] <==> exists|y2: int| 0 <= y2 < y + 1 && reached[y2] && #[trigger] direct[y2][t]) by {
                        if direct[y as int][t] {
                            assert(0 <= y < y + 1);
                        }
                        if exists|y2: int| 0 <= y2 < y + 1 && reached[y2] && #[trigger] direct[y2][t] {
                            let y2 = choose|y2: int| 0 <= y2 < y + 1 && reached[y2] && #[trigger] direct[y2][t];
                            if y2 < y {
                                assert(before[t]);
                            }
                        }
                    }
                }
            }
            y = y + 1;
        }
        proof {
            assert forall|t: int| 0 <= t < n implies (row[t] <==> m.in_follow(x as int, t)) by {
                if row[t] {
                    let y2 = choose|y2: int| 0 <= y2 < n && reached[y2] && #[trigger] direct[y2][t];
                    assert(reaches(m.follow_rel(), x as int, y2));
                    assert(m.direct_follow(y2, t));
                }
                if m.in_follow(x as int, t) {
                    let y2 = choose|y2: int| #[trigger] reaches(m.follow_rel(), x as int, y2) && m.direct_follow(y2, t);
                    let z = choose|z: int| #[trigger] m.after_step(y2, z) && m.in_first(z, t);
                    let a_j = choose|a: int, j: int| #[trigger] m.is_alt(a, j) && m.after_in(m.rhs(a, j), y2, z);
                    let (a, j) = a_j;
                    let (i, q) = choose|i: int, q: int| 0 <= i < q < m.rhs(a, j).len() && #[trigger] m.rhs(a, j)[i] as int == y2 && #[trigger] m.rhs(a, j)[q] as int == z && m.nullable_span(m.rhs(a, j), i + 1, q);
                    assert(0 <= y2 < n);
                    assert(reached[y2]);
                    assert(direct[y2][t]);
                }
            }
        }
        table.push(row);
        x = x + 1;
    }
    table
}

} // verus!

