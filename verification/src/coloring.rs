//! What a coloring is, when it is valid, and the checker for it.
//!
//! A coloring is one `usize` per vertex; `usize::MAX` is the sentinel for
//! "not yet colored" and is distinct from every color a heuristic assigns.

use vstd::prelude::*;
use crate::graph::{adj, g_loopless, g_square, g_symmetric};

verus! {

/// Every vertex carries a real color, none is left at the sentinel.
pub open spec fn all_colored(colors: Seq<usize>) -> bool {
    forall|v: int| 0 <= v < colors.len() ==> #[trigger] colors[v] != usize::MAX
}

/// No colored vertex shares its color with an adjacent vertex.
pub open spec fn conflict_free(g: Seq<Vec<bool>>, colors: Seq<usize>) -> bool {
    forall|i: int, j: int|
        0 <= i < g.len() && 0 <= j < g.len() && #[trigger] adj(g, i, j) && colors[i] != usize::MAX
            ==> colors[i] != colors[j]
}

/// A complete, proper coloring of the graph.
pub open spec fn valid_coloring(g: Seq<Vec<bool>>, colors: Seq<usize>) -> bool {
    colors.len() == g.len() && all_colored(colors) && conflict_free(g, colors)
}

/// Every assigned color lies below `k`; uncolored vertices are exempt.
pub open spec fn colors_lt(colors: Seq<usize>, k: int) -> bool {
    forall|v: int|
        0 <= v < colors.len() && #[trigger] colors[v] != usize::MAX ==> colors[v] < k
}

/// Some neighbor of `v` already carries the color `c`.
pub open spec fn color_in_use(g: Seq<Vec<bool>>, colors: Seq<usize>, v: int, c: usize) -> bool {
    exists|j: int| 0 <= j < g.len() && #[trigger] adj(g, v, j) && colors[j] == c
}

/// Giving vertex `v` a color that no neighbor uses keeps the coloring
/// conflict-free.
pub proof fn lemma_color_one_vertex(g: Seq<Vec<bool>>, colors: Seq<usize>, v: int, c: usize)
    requires
        g_square(g),
        g_symmetric(g),
        g_loopless(g),
        colors.len() == g.len(),
        0 <= v < g.len(),
        conflict_free(g, colors),
        c != usize::MAX,
        !color_in_use(g, colors, v, c),
    ensures
        conflict_free(g, colors.update(v, c)),
{
    let colors2 = colors.update(v, c);
    assert forall|i: int, j: int|
        0 <= i < g.len() && 0 <= j < g.len() && #[trigger] adj(g, i, j) && colors2[i]
            != usize::MAX implies colors2[i] != colors2[j] by {
        if i == v {
            if j == v {
                assert(!adj(g, v, v));
            } else {
                if colors[j] == c {
                    assert(adj(g, v, j) && colors[j] == c);
                }
            }
        } else if j == v {
            if colors[i] == c {
                assert(adj(g, i, v));
                assert(adj(g, v, i) && colors[i] == c);
            }
        }
    }
}

/// Removing one entry from a duplicate-free pool keeps it duplicate-free,
/// and the remaining members are exactly the others.
pub proof fn lemma_pool_remove(pool: Seq<usize>, i: int)
    requires
        0 <= i < pool.len(),
        pool.no_duplicates(),
    ensures
        pool.remove(i).no_duplicates(),
        forall|x: usize|
            #[trigger] pool.remove(i).contains(x) <==> (pool.contains(x) && x != pool[i]),
{
    let rest = pool.remove(i);
    assert(rest.len() == pool.len() - 1);
    assert forall|k: int| 0 <= k < rest.len() implies rest[k] == pool[
        if k < i {
            k
        } else {
            k + 1
        }
    ] by {}
    assert forall|a: int, b: int|
        0 <= a < rest.len() && 0 <= b < rest.len() && a != b implies rest[a] != rest[b] by {
        let a0: int = if a < i { a } else { a + 1 };
        let b0: int = if b < i { b } else { b + 1 };
        assert(rest[a] == pool[a0] && rest[b] == pool[b0]);
    }
    assert forall|x: usize| #[trigger] rest.contains(x) implies pool.contains(x) && x != pool[i] by {
        let k = choose|k: int| 0 <= k < rest.len() && rest[k] == x;
        let k0: int = if k < i { k } else { k + 1 };
        assert(pool[k0] == x);
        assert(pool.contains(x));
        assert(k0 != i);
    }
    assert forall|x: usize| pool.contains(x) && x != pool[i] implies #[trigger] rest.contains(x) by {
        let k0 = choose|k0: int| 0 <= k0 < pool.len() && pool[k0] == x;
        let k: int = if k0 < i { k0 } else { k0 - 1 };
        assert(k0 != i);
        assert(rest[k] == pool[k0]);
    }
}

/// The popped last entry of a duplicate-free pool is no longer a member of
/// the rest.
pub proof fn lemma_pool_drop_last(pool: Seq<usize>)
    requires
        pool.len() > 0,
        pool.no_duplicates(),
    ensures
        pool.drop_last().no_duplicates(),
        forall|x: usize|
            #[trigger] pool.drop_last().contains(x) <==> (pool.contains(x) && x != pool[pool.len()
                - 1]),
{
    lemma_pool_remove(pool, pool.len() - 1);
    assert(pool.drop_last() =~= pool.remove(pool.len() - 1));
}

/// How many of the first `k` vertices are still uncolored.
pub open spec fn count_uncolored_upto(colors: Seq<usize>, k: int) -> int
    decreases k,
{
    if k <= 0 {
        0
    } else {
        count_uncolored_upto(colors, k - 1) + if colors[k - 1] == usize::MAX {
            1int
        } else {
            0int
        }
    }
}

pub proof fn lemma_count_uncolored_bounds(colors: Seq<usize>, k: int)
    requires
        0 <= k <= colors.len(),
    ensures
        0 <= count_uncolored_upto(colors, k) <= k,
    decreases k,
{
    if k > 0 {
        lemma_count_uncolored_bounds(colors, k - 1);
    }
}

/// Coloring vertices never increases the number of uncolored ones.
pub proof fn lemma_count_uncolored_pointwise(c1: Seq<usize>, c2: Seq<usize>, k: int)
    requires
        c1.len() == c2.len(),
        0 <= k <= c1.len(),
        forall|v: int| 0 <= v < c1.len() && #[trigger] c2[v] == usize::MAX ==> c1[v] == usize::MAX,
    ensures
        count_uncolored_upto(c2, k) <= count_uncolored_upto(c1, k),
    decreases k,
{
    if k > 0 {
        lemma_count_uncolored_pointwise(c1, c2, k - 1);
    }
}

/// Coloring at least one previously uncolored vertex strictly decreases
/// the number of uncolored ones.
pub proof fn lemma_count_uncolored_strict(c1: Seq<usize>, c2: Seq<usize>, k: int, w: int)
    requires
        c1.len() == c2.len(),
        0 <= k <= c1.len(),
        forall|v: int| 0 <= v < c1.len() && #[trigger] c2[v] == usize::MAX ==> c1[v] == usize::MAX,
        0 <= w < k,
        c1[w] == usize::MAX,
        c2[w] != usize::MAX,
    ensures
        count_uncolored_upto(c2, k) < count_uncolored_upto(c1, k),
    decreases k,
{
    if w == k - 1 {
        lemma_count_uncolored_pointwise(c1, c2, k - 1);
    } else {
        lemma_count_uncolored_strict(c1, c2, k - 1, w);
    }
}

/// A valid coloring that uses a single color forces the graph to have no
/// edge at all: adjacent vertices would both carry color zero.
pub proof fn lemma_one_color_implies_edgeless(g: Seq<Vec<bool>>, colors: Seq<usize>)
    requires
        valid_coloring(g, colors),
        colors_lt(colors, 1),
    ensures
        crate::graph::g_edgeless(g),
{
    assert forall|i: int, j: int|
        0 <= i < g.len() && 0 <= j < g.len() implies !#[trigger] adj(g, i, j) by {
        if adj(g, i, j) {
            assert(colors[i] != usize::MAX && colors[j] != usize::MAX);
            assert(colors[i] < 1 && colors[j] < 1);
            assert(colors[i] == colors[j]);
            assert(colors[i] != colors[j]);
        }
    }
}

/// The validity checker: a coloring passes exactly when no
/// vertex is left uncolored and no edge joins two equal colors. Its result
/// is a function of the graph and the coloring alone, so checking twice
/// returns the same verdict.
pub fn check_colors(edges: &Vec<Vec<bool>>, v_colors: &Vec<usize>) -> (r: bool)
    requires
        g_square(edges@),
        v_colors@.len() == edges@.len(),
    ensures
        r == (all_colored(v_colors@) && conflict_free(edges@, v_colors@)),
{
    let n = edges.len();
    let mut i: usize = 0;
    while i < n
        invariant
            i <= n,
            n == edges@.len(),
            g_square(edges@),
            v_colors@.len() == n,
            forall|u: int| 0 <= u < i ==> #[trigger] v_colors@[u] != usize::MAX,
            forall|u: int, j: int|
                0 <= u < i && 0 <= j < n && #[trigger] adj(edges@, u, j) ==> v_colors@[u]
                    != v_colors@[j],
        decreases n - i,
    {
        if v_colors[i] == usize::MAX {
            return false;
        }
        let mut j: usize = 0;
        while j < n
            invariant
                j <= n,
                i < n,
                n == edges@.len(),
                g_square(edges@),
                v_colors@.len() == n,
                forall|jj: int|
                    0 <= jj < j && #[trigger] adj(edges@, i as int, jj) ==> v_colors@[i as int]
                        != v_colors@[jj],
            decreases n - j,
        {
            if edges[i][j] && v_colors[i] == v_colors[j] {
                proof {
                    assert(adj(edges@, i as int, j as int));
                    if v_colors@[i as int] != usize::MAX {
                        assert(!conflict_free(edges@, v_colors@));
                    } else {
                        assert(!all_colored(v_colors@));
                    }
                }
                return false;
            }
            j = j + 1;
        }
        i = i + 1;
    }
    proof {
        assert forall|a: int, b: int|
            0 <= a < n && 0 <= b < n && #[trigger] adj(edges@, a, b) && v_colors@[a]
                != usize::MAX implies v_colors@[a] != v_colors@[b] by {}
    }
    true
}

} // verus!
