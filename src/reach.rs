//! Reachability in a finite directed graph, the fixpoint shared by the FIRST,
//! FOLLOW and item-closure computations.
use vstd::prelude::*;

verus! {

/// `p` is a walk along `edge`: nonempty, each node followed by a successor.
pub open spec fn is_walk(edge: spec_fn(int, int) -> bool, p: Seq<int>) -> bool {
    &&& p.len() > 0
    &&& forall|i: int| 0 <= i < p.len() - 1 ==> #[trigger] edge(p[i], p[i + 1])
}

/// `v` is reachable from `s` by finitely many steps of `edge`.
pub open spec fn reaches(edge: spec_fn(int, int) -> bool, s: int, v: int) -> bool {
    exists|p: Seq<int>| #[trigger] is_walk(edge, p) && p[0] == s && p.last() == v
}

/// `v` is reachable from some node marked in `sources`.
pub open spec fn reaches_from(edge: spec_fn(int, int) -> bool, sources: Seq<bool>, v: int) -> bool {
    exists|s: int| 0 <= s < sources.len() && #[trigger] sources[s] && reaches(edge, s, v)
}

/// `adj` lists, for each node below `adj.len()`, exactly its successors under `edge`.
pub open spec fn lists_edges(adj: Seq<Vec<usize>>, edge: spec_fn(int, int) -> bool) -> bool {
    &&& forall|a: int, j: int|
        0 <= a < adj.len() && 0 <= j < adj[a]@.len() ==> {
            &&& (#[trigger] adj[a]@[j]) < adj.len()
            &&& edge(a, adj[a]@[j] as int)
        }
    &&& forall|a: int, b: int| #[trigger]
        edge(a, b) ==> 0 <= a < adj.len() && 0 <= b < adj.len() && adj[a]@.contains(b as usize)
}

/// Number of marked entries.
pub open spec fn count_marked(s: Seq<bool>) -> nat
    decreases s.len(),
{
    if s.len() == 0 {
        0
    } else {
        count_marked(s.drop_last()) + if s.last() {
            1nat
        } else {
            0nat
        }
    }
}

pub proof fn lemma_count_marked_bound(s: Seq<bool>)
    ensures
        count_marked(s) <= s.len(),
    decreases s.len(),
{
    if s.len() > 0 {
        lemma_count_marked_bound(s.drop_last());
    }
}

pub proof fn lemma_count_marked_set(s: Seq<bool>, b: int)
    requires
        0 <= b < s.len(),
        !s[b],
    ensures
        count_marked(s.update(b, true)) == count_marked(s) + 1,
    decreases s.len(),
{
    if b < s.len() - 1 {
        assert(s.update(b, true).drop_last() =~= s.drop_last().update(b, true));
        lemma_count_marked_set(s.drop_last(), b);
    } else {
        assert(s.update(b, true).drop_last() =~= s.drop_last());
    }
}

proof fn lemma_walk_closed(edge: spec_fn(int, int) -> bool, marked: Seq<bool>, p: Seq<int>)
    requires
        is_walk(edge, p),
        0 <= p[0] < marked.len(),
        marked[p[0]],
        forall|a: int, b: int|
            0 <= a < marked.len() && marked[a] && #[trigger] edge(a, b) ==> 0 <= b < marked.len()
                && marked[b],
    ensures
        0 <= p.last() < marked.len(),
        marked[p.last()],
    decreases p.len(),
{
    if p.len() > 1 {
        let q = p.drop_last();
        assert forall|i: int| 0 <= i < q.len() - 1 implies #[trigger] edge(q[i], q[i + 1]) by {
            assert(edge(p[i], p[i + 1]));
        }
        lemma_walk_closed(edge, marked, q);
        let i = p.len() - 2;
        assert(edge(p[i], p[i + 1]));
    }
}

/// Extending a walk to `s` by one edge gives a walk to the successor.
proof fn lemma_reaches_step(edge: spec_fn(int, int) -> bool, s: int, a: int, b: int)
    requires
        reaches(edge, s, a),
        edge(a, b),
    ensures
        reaches(edge, s, b),
{
    let p = choose|p: Seq<int>| #[trigger] is_walk(edge, p) && p[0] == s && p.last() == a;
    let q = p.push(b);
    assert forall|i: int| 0 <= i < q.len() - 1 implies #[trigger] edge(q[i], q[i + 1]) by {
        if i < p.len() - 1 {
            assert(edge(p[i], p[i + 1]));
        }
    }
    assert(is_walk(edge, q));
}

/// Every node reaches itself.
proof fn lemma_reaches_refl(edge: spec_fn(int, int) -> bool, s: int)
    ensures
        reaches(edge, s, s),
{
    let p = seq![s];
    assert(is_walk(edge, p));
}

/// Marks every node reachable from a node marked in `sources`.
pub fn reachable_set(
    adj: &Vec<Vec<usize>>,
    sources: &Vec<bool>,
    Ghost(edge): Ghost<spec_fn(int, int) -> bool>,
) -> (r: Vec<bool>)
    requires
        sources.len() == adj.len(),
        lists_edges(adj@, edge),
    ensures
        r.len() == adj.len(),
        forall|v: int| 0 <= v < r.len() ==> (r[v] <==> reaches_from(edge, sources@, v)),
{
    let n = adj.len();
    let mut visited: Vec<bool> = Vec::new();
    let mut order: Vec<usize> = Vec::new();
    let mut i: usize = 0;
    while i < n
        invariant
            i <= n,
            n == sources.len(),
            visited.len() == i,
            order.len() == count_marked(visited@),
            forall|k: int| 0 <= k < order.len() ==> order[k] < i && visited[order[k] as int],
            forall|v: int| 0 <= v < i ==> (visited[v] <==> sources[v]),
            forall|v: int| 0 <= v < i && visited[v] ==> order@.contains(v as usize),
        decreases n - i,
    {
        let ghost before = visited@;
        let ghost old_order = order@;
        visited.push(sources[i]);
        assert(visited@.drop_last() =~= before);
        if sources[i] {
            order.push(i);
        }
        proof {
            assert forall|v: int| 0 <= v < i + 1 && visited[v] implies order@.contains(v as usize) by {
                if v < i {
                    let k = choose|k: int| 0 <= k < old_order.len() && old_order[k] == v as usize;
                    assert(order@[k] == v as usize);
                } else {
                    assert(order@[order.len() - 1] == v as usize);
                }
            }
        }
        i = i + 1;
    }
    proof {
        assert forall|v: int| 0 <= v < n && visited[v] implies reaches_from(edge, sources@, v) by {
            lemma_reaches_refl(edge, v);
        }
    }
    let mut i: usize = 0;
    while i < order.len()
        invariant
            n == adj.len(),
            n == sources.len(),
            lists_edges(adj@, edge),
            visited.len() == n,
            i <= order.len(),
            order.len() == count_marked(visited@),
            forall|k: int| 0 <= k < order.len() ==> order[k] < n && visited[order[k] as int],
            forall|v: int| 0 <= v < n && visited[v] ==> order@.contains(v as usize),
            forall|v: int| 0 <= v < n && sources[v] ==> visited[v],
            forall|v: int| 0 <= v < n && visited[v] ==> reaches_from(edge, sources@, v),
            forall|k: int, j: int|
                0 <= k < i && 0 <= j < adj[order[k] as int]@.len() ==> visited[adj[order[k] as int]@[j] as int],
        decreases n - i,
    {
        proof {
            lemma_count_marked_bound(visited@);
        }
        let a = order[i];
        let m = adj[a].len();
        let mut j: usize = 0;
        while j < m
            invariant
                n == adj.len(),
                n == sources.len(),
                lists_edges(adj@, edge),
                a < n,
                i < order.len(),
                order[i as int] == a,
                m == adj[a as int]@.len(),
                j <= m,
                visited.len() == n,
                order.len() == count_marked(visited@),
                forall|k: int| 0 <= k < order.len() ==> order[k] < n && visited[order[k] as int],
                forall|v: int| 0 <= v < n && visited[v] ==> order@.contains(v as usize),
                forall|v: int| 0 <= v < n && sources[v] ==> visited[v],
                forall|v: int| 0 <= v < n && visited[v] ==> reaches_from(edge, sources@, v),
                forall|k: int, jj: int|
                    0 <= k < i && 0 <= jj < adj[order[k] as int]@.len() ==> visited[adj[order[k] as int]@[jj] as int],
                forall|jj: int| 0 <= jj < j ==> visited[adj[a as int]@[jj] as int],
            decreases m - j,
        {
            let b = adj[a][j];
            assert(edge(a as int, b as int));
            if !visited[b] {
                proof {
                    assert(reaches_from(edge, sources@, a as int));
                    let s = choose|s: int| 0 <= s < sources.len() && #[trigger] sources@[s] && reaches(edge, s, a as int);
                    lemma_reaches_step(edge, s, a as int, b as int);
                    lemma_count_marked_set(visited@, b as int);
                }
                let ghost old_order = order@;
                visited.set(b, true);
                order.push(b);
                proof {
                    assert forall|v: int| 0 <= v < n && visited[v] implies order@.contains(v as usize) by {
                        if v != b as int {
                            let k = choose|k: int| 0 <= k < old_order.len() && old_order[k] == v as usize;
                            assert(order@[k] == v as usize);
                        } else {
                            assert(order@[order.len() - 1] == v as usize);
                        }
                    }
                }
            }
            j = j + 1;
        }
        i = i + 1;
    }
    proof {
        assert forall|x: int, y: int|
            0 <= x < n && visited[x] && #[trigger] edge(x, y) implies 0 <= y < n && visited[y] by {
            let k = choose|k: int| 0 <= k < order.len() && order[k] == x as usize;
            let jj = choose|jj: int| 0 <= jj < adj[x]@.len() && adj[x]@[jj] == y as usize;
            assert(visited[adj[order[k] as int]@[jj] as int]);
        }
        assert forall|v: int| 0 <= v < n && reaches_from(edge, sources@, v) implies visited[v] by {
            let s = choose|s: int| 0 <= s < sources.len() && #[trigger] sources@[s] && reaches(edge, s, v);
            let p = choose|p: Seq<int>| #[trigger] is_walk(edge, p) && p[0] == s && p.last() == v;
            lemma_walk_closed(edge, visited@, p);
        }
    }
    visited
}

} // verus!
