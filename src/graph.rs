//! Connected components of a graph given by its adjacency matrix.

use vstd::prelude::*;
use crate::lattice::is_square;
use crate::matrix::Matrix;

verus! {

/// There is an edge from `u` to `v`.
pub open spec fn edge(m: &Matrix<bool>, u: int, v: int) -> bool {
    m.0@[u]@[v]
}

/// `p` is a nonempty walk along edges between vertices of `m`.
pub open spec fn is_walk(m: &Matrix<bool>, p: Seq<int>) -> bool {
    &&& p.len() > 0
    &&& forall|k: int| 0 <= k < p.len() ==> 0 <= #[trigger] p[k] < m.0@.len()
    &&& forall|k: int| 0 <= k < p.len() - 1 ==> edge(m, #[trigger] p[k], p[k + 1])
}

/// Some walk leads from `u` to `v`.
pub open spec fn reachable(m: &Matrix<bool>, u: int, v: int) -> bool {
    exists|p: Seq<int>| #[trigger] is_walk(m, p) && p[0] == u && p.last() == v
}

/// No vertex before `v` reaches `v`: `v` is the first vertex of its
/// component.
pub open spec fn is_first_of_component(m: &Matrix<bool>, v: int) -> bool {
    forall|u: int| 0 <= u < v ==> !#[trigger] reachable(m, u, v)
}

/// How many of the first `k` vertices are the first of their component.
pub open spec fn components_below(m: &Matrix<bool>, k: int) -> nat
    decreases k,
{
    if k <= 0 {
        0
    } else {
        components_below(m, k - 1) + if is_first_of_component(m, k - 1) {
            1nat
        } else {
            0nat
        }
    }
}

/// How many of the first `k` vertices are marked in `vis` and the first of
/// their component.
pub open spec fn marked_firsts(m: &Matrix<bool>, vis: Seq<bool>, k: int) -> nat
    decreases k,
{
    if k <= 0 {
        0
    } else {
        marked_firsts(m, vis, k - 1) + if vis[k - 1] && is_first_of_component(m, k - 1) {
            1nat
        } else {
            0nat
        }
    }
}

/// How many vertices are not marked.
pub open spec fn unmarked(vis: Seq<bool>) -> nat
    decreases vis.len(),
{
    if vis.len() == 0 {
        0
    } else {
        unmarked(vis.drop_last()) + if vis.last() {
            0nat
        } else {
            1nat
        }
    }
}

/// Every edge from a marked vertex leads to a marked vertex.
pub open spec fn is_closed(m: &Matrix<bool>, vis: Seq<bool>) -> bool {
    forall|v: int, w: int|
        0 <= v < vis.len() && 0 <= w < vis.len() && #[trigger] vis[v] && #[trigger] edge(m, v, w)
            ==> vis[w]
}

proof fn lemma_unmarked_bounds(a: Seq<bool>, b: Seq<bool>)
    requires
        a.len() == b.len(),
        forall|v: int| 0 <= v < a.len() && #[trigger] a[v] ==> b[v],
    ensures
        unmarked(b) <= unmarked(a),
        unmarked(a) <= a.len(),
        (exists|v: int| 0 <= v < a.len() && !a[v] && #[trigger] b[v]) ==> unmarked(b) < unmarked(a),
    decreases a.len(),
{
    if a.len() > 0 {
        lemma_unmarked_bounds(a.drop_last(), b.drop_last());
        if exists|v: int| 0 <= v < a.len() && !a[v] && #[trigger] b[v] {
            let v = choose|v: int| 0 <= v < a.len() && !a[v] && #[trigger] b[v];
            if v < a.len() - 1 {
                assert(!a.drop_last()[v] && b.drop_last()[v]);
            }
        }
    }
}

proof fn lemma_walk_prepend(m: &Matrix<bool>, u: int, p: Seq<int>)
    requires
        is_walk(m, p),
        0 <= u < m.0@.len(),
        edge(m, u, p[0]),
    ensures
        is_walk(m, seq![u] + p),
        (seq![u] + p)[0] == u,
        (seq![u] + p).last() == p.last(),
{
    let q = seq![u] + p;
    assert forall|k: int| 0 <= k < q.len() - 1 implies edge(m, #[trigger] q[k], q[k + 1]) by {
        if k > 0 {
            assert(q[k] == p[k - 1] && q[k + 1] == p[k]);
        }
    }
}

proof fn lemma_closed_walk(m: &Matrix<bool>, vis: Seq<bool>, p: Seq<int>)
    requires
        vis.len() == m.0@.len(),
        is_closed(m, vis),
        is_walk(m, p),
        vis[p[0]],
    ensures
        vis[p.last()],
{
    assert forall|k: int| 0 <= k < p.len() implies #[trigger] vis[p[k]] by {
        lemma_closed_walk_prefix(m, vis, p, k);
    }
}

proof fn lemma_closed_walk_prefix(m: &Matrix<bool>, vis: Seq<bool>, p: Seq<int>, k: int)
    requires
        vis.len() == m.0@.len(),
        is_closed(m, vis),
        is_walk(m, p),
        vis[p[0]],
        0 <= k < p.len(),
    ensures
        vis[p[k]],
    decreases k,
{
    if k > 0 {
        lemma_closed_walk_prefix(m, vis, p, k - 1);
        assert(edge(m, p[k - 1], p[k]));
    }
}

/// Marks every vertex that `current` reaches through unmarked vertices.
fn dfs1(matrix: &Matrix<bool>, current: usize, visited: &mut Vec<bool>)
    requires
        is_square(matrix),
        current < matrix.0@.len(),
        old(visited)@.len() == matrix.0@.len(),
        !old(visited)@[current as int],
    ensures
        final(visited)@.len() == old(visited)@.len(),
        final(visited)@[current as int],
        forall|v: int| 0 <= v < old(visited)@.len() && #[trigger] old(visited)@[v] ==> final(visited)@[v],
        forall|v: int|
            0 <= v < old(visited)@.len() && #[trigger] final(visited)@[v] && !old(visited)@[v]
                ==> reachable(matrix, current as int, v),
        forall|v: int, w: int|
            0 <= v < old(visited)@.len() && 0 <= w < old(visited)@.len()
                && #[trigger] final(visited)@[v] && !old(visited)@[v] && #[trigger] edge(matrix, v, w)
                ==> final(visited)@[w],
    decreases unmarked(old(visited)@),
{
    let ghost start = visited@;
    let n = matrix.shape().0;
    visited.set(current, true);
    proof {
        assert(!start[current as int] && visited@[current as int]);
        lemma_unmarked_bounds(start, visited@);
        let p = seq![current as int];
        assert(is_walk(matrix, p));
    }
    let mut i: usize = 0;
    while i < n
        invariant
            is_square(matrix),
            n == matrix.0@.len(),
            current < n,
            i <= n,
            start == old(visited)@,
            start.len() == n,
            !start[current as int],
            visited@.len() == n,
            visited@[current as int],
            unmarked(visited@) < unmarked(start),
            forall|v: int| 0 <= v < n && #[trigger] start[v] ==> visited@[v],
            forall|v: int| 0 <= v < n && #[trigger] visited@[v] && !start[v] ==> reachable(matrix, current as int, v),
            forall|v: int, w: int|
                0 <= v < n && 0 <= w < n && v != current && #[trigger] visited@[v] && !start[v]
                    && #[trigger] edge(matrix, v, w) ==> visited@[w],
            forall|j: int| 0 <= j < i && edge(matrix, current as int, j) ==> #[trigger] visited@[j],
        decreases n - i,
    {
        assert(matrix.0@[current as int]@.len() == n);
        let ghost earlier = visited@;
        if !visited[i] && matrix.0[current][i] {
            let ghost before = visited@;
            dfs1(matrix, i, visited);
            proof {
                lemma_unmarked_bounds(before, visited@);
                lemma_unmarked_bounds(start, visited@);
                assert forall|v: int| 0 <= v < n && #[trigger] visited@[v] && !start[v] implies reachable(
                    matrix,
                    current as int,
                    v,
                ) by {
                    if !before[v] {
                        let p = choose|p: Seq<int>| #[trigger] is_walk(matrix, p) && p[0] == i && p.last() == v;
                        lemma_walk_prepend(matrix, current as int, p);
                    }
                }
            }
        }
        assert forall|j: int| 0 <= j < i + 1 && edge(matrix, current as int, j) implies #[trigger] visited@[j] by {
            if j < i {
                assert(earlier[j]);
            }
        }
        i = i + 1;
    }
}

/// The number of connected components of the graph with adjacency matrix
/// `matrix`: vertices are searched in order, and a search starts from each
/// vertex that no earlier search reached. Each search starts from the first
/// vertex of its component (no earlier vertex reaches it), so the count is
/// the number of such vertices; for a symmetric matrix, the number of
/// connected components.
pub fn connected_component_count(matrix: &Matrix<bool>) -> (r: usize)
    requires
        is_square(matrix),
    ensures
        r == components_below(matrix, matrix.0@.len() as int),
{
    let n = matrix.shape().0;
    let mut visited: Vec<bool> = Vec::new();
    let mut k: usize = 0;
    while k < n
        invariant
            k <= n,
            visited@.len() == k,
            forall|v: int| 0 <= v < k ==> !#[trigger] visited@[v],
        decreases n - k,
    {
        visited.push(false);
        k = k + 1;
    }
    proof {
        lemma_marked_none(matrix, visited@, n as int);
        lemma_unmarked_bounds(visited@, visited@);
    }
    let mut count: usize = 0;
    loop
        invariant
            is_square(matrix),
            n == matrix.0@.len(),
            visited@.len() == n,
            is_closed(matrix, visited@),
            count == marked_firsts(matrix, visited@, n as int),
            count + unmarked(visited@) <= n,
        decreases unmarked(visited@),
    {
        let mut s: usize = 0;
        while s < n && visited[s]
            invariant
                s <= n,
                visited@.len() == n,
                forall|j: int| 0 <= j < s ==> #[trigger] visited@[j],
            decreases n - s,
        {
            s = s + 1;
        }
        if s == n {
            proof {
                lemma_marked_all(matrix, visited@, n as int);
            }
            return count;
        }
        let ghost before = visited@;
        proof {
            assert forall|u: int| 0 <= u < s implies !#[trigger] reachable(matrix, u, s as int) by {
                if reachable(matrix, u, s as int) {
                    let p = choose|p: Seq<int>| #[trigger] is_walk(matrix, p) && p[0] == u && p.last() == s as int;
                    lemma_closed_walk(matrix, before, p);
                }
            }
        }
        dfs1(matrix, s, &mut visited);
        proof {
            lemma_unmarked_bounds(before, visited@);
            assert forall|v: int| 0 <= v < n && v != s && #[trigger] visited@[v] && !before[v]
                implies !is_first_of_component(matrix, v) by {
                assert(reachable(matrix, s as int, v));
                if v < s {
                    assert(before[v]);
                }
            }
            lemma_marked_one_more(matrix, before, visited@, s as int, n as int);
            assert(is_closed(matrix, visited@));
        }
        count = count + 1;
    }
}

proof fn lemma_marked_none(m: &Matrix<bool>, vis: Seq<bool>, k: int)
    requires
        0 <= k <= vis.len(),
        forall|v: int| 0 <= v < vis.len() ==> !#[trigger] vis[v],
    ensures
        marked_firsts(m, vis, k) == 0,
    decreases k,
{
    if k > 0 {
        lemma_marked_none(m, vis, k - 1);
    }
}

proof fn lemma_marked_all(m: &Matrix<bool>, vis: Seq<bool>, k: int)
    requires
        0 <= k <= vis.len(),
        forall|v: int| 0 <= v < vis.len() ==> #[trigger] vis[v],
    ensures
        marked_firsts(m, vis, k) == components_below(m, k),
    decreases k,
{
    if k > 0 {
        lemma_marked_all(m, vis, k - 1);
    }
}

proof fn lemma_marked_one_more(m: &Matrix<bool>, a: Seq<bool>, b: Seq<bool>, s: int, k: int)
    requires
        a.len() == b.len(),
        0 <= k <= a.len(),
        0 <= s < a.len(),
        !a[s],
        b[s],
        is_first_of_component(m, s),
        forall|v: int| 0 <= v < a.len() && #[trigger] a[v] ==> b[v],
        forall|v: int|
            0 <= v < a.len() && v != s && #[trigger] b[v] && !a[v] ==> !is_first_of_component(m, v),
    ensures
        marked_firsts(m, b, k) == marked_firsts(m, a, k) + if s < k {
            1nat
        } else {
            0nat
        },
    decreases k,
{
    if k > 0 {
        lemma_marked_one_more(m, a, b, s, k - 1);
    }
}

} // verus!
