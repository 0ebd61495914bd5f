//! The shared greedy assignment primitive and the two heuristics that are
//! nothing but a processing order around it.

use vstd::prelude::*;
use crate::graph::{
    adj, degree_list, g_edgeless, g_loopless, g_square, g_symmetric, g_well_formed,
    sorted_index_list,
};
use crate::coloring::{
    all_colored, color_in_use, colors_lt, conflict_free, lemma_color_one_vertex,
    lemma_pool_drop_last, valid_coloring,
};

verus! {

/// The smallest color id in `[c, bound]` that no neighbor of `v` uses,
/// with `bound` itself standing for "every id below the bound is taken".
pub open spec fn spec_free_from(
    g: Seq<Vec<bool>>,
    colors: Seq<usize>,
    v: int,
    c: int,
    bound: int,
) -> int
    decreases bound - c when c <= bound
{
    if c >= bound {
        bound
    } else if !color_in_use(g, colors, v, c as usize) {
        c
    } else {
        spec_free_from(g, colors, v, c + 1, bound)
    }
}

pub proof fn lemma_free_from_pinned(
    g: Seq<Vec<bool>>,
    colors: Seq<usize>,
    v: int,
    k: int,
    c: usize,
    bound: usize,
)
    requires
        0 <= k <= c <= bound,
        forall|c2: usize| k <= c2 < c ==> color_in_use(g, colors, v, c2),
        c < bound ==> !color_in_use(g, colors, v, c),
    ensures
        spec_free_from(g, colors, v, k, bound as int) == c as int,
    decreases c - k,
{
    if k == c as int {
    } else {
        assert(color_in_use(g, colors, v, k as usize));
        lemma_free_from_pinned(g, colors, v, k + 1, c, bound);
    }
}

/// One step of the First-Fit recurrence: vertex `v` takes the smallest
/// free color, and the counter grows when that color is new.
pub open spec fn first_fit_step(g: Seq<Vec<bool>>, state: (Seq<usize>, int), v: int) -> (
    Seq<usize>,
    int,
) {
    let c = spec_free_from(g, state.0, v, 0, state.1);
    (
        state.0.update(v, c as usize),
        if c == state.1 {
            state.1 + 1
        } else {
            state.1
        },
    )
}

/// The coloring and counter after First-Fit has processed vertices
/// `0..i`.
pub open spec fn first_fit_upto(g: Seq<Vec<bool>>, i: int) -> (Seq<usize>, int)
    decreases i,
{
    if i <= 0 {
        (Seq::new(g.len(), |v: int| usize::MAX), 0int)
    } else {
        first_fit_step(g, first_fit_upto(g, i - 1), i - 1)
    }
}

/// What First-Fit returns: a function of the graph alone, so the
/// heuristic is deterministic.
pub open spec fn first_fit_spec(g: Seq<Vec<bool>>) -> (Seq<usize>, int) {
    first_fit_upto(g, g.len() as int)
}

/// The rest of a pop-driven greedy run: process the pool from its last
/// entry down to its first, each vertex taking the smallest free color.
pub open spec fn greedy_pops(g: Seq<Vec<bool>>, pool: Seq<usize>, state: (Seq<usize>, int)) -> (
    Seq<usize>,
    int,
)
    decreases pool.len(),
{
    if pool.len() == 0 {
        state
    } else {
        greedy_pops(g, pool.drop_last(), first_fit_step(g, state, pool.last() as int))
    }
}

/// The per-vertex degrees of the graph, as the sort consumes them.
pub open spec fn spec_degrees(g: Seq<Vec<bool>>) -> Seq<usize> {
    Seq::new(g.len(), |v: int| crate::graph::row_degree(g[v]@) as usize)
}

/// What Largest-Degree-Ordering returns: a function of the graph alone,
/// so the heuristic is deterministic.
pub open spec fn ldo_spec(g: Seq<Vec<bool>>) -> (Seq<usize>, int) {
    greedy_pops(
        g,
        crate::graph::spec_sorted_indices(spec_degrees(g), g.len() as int),
        (Seq::new(g.len(), |v: int| usize::MAX), 0int),
    )
}

/// Gives vertex `i_v` the smallest color id in `[0, *color)` that no
/// neighbor of `i_v` already carries; when every one of them is taken, it
/// assigns `*color` itself and increments the counter. The assigned color
/// is pinned exactly: it does not conflict, every smaller color does.
pub fn assign_color(i_v: usize, v_colors: &mut Vec<usize>, edges: &Vec<Vec<bool>>, color: &mut usize)
    requires
        g_square(edges@),
        old(v_colors)@.len() == edges@.len(),
        i_v < edges@.len(),
        *old(color) < usize::MAX,
        colors_lt(old(v_colors)@, *old(color) as int),
    ensures
        final(v_colors)@ == old(v_colors)@.update(i_v as int, final(v_colors)@[i_v as int]),
        final(v_colors)@[i_v as int] != usize::MAX,
        final(v_colors)@[i_v as int] <= *old(color),
        !color_in_use(edges@, old(v_colors)@, i_v as int, final(v_colors)@[i_v as int]),
        forall|c2: usize|
            c2 < final(v_colors)@[i_v as int] ==> color_in_use(
                edges@,
                old(v_colors)@,
                i_v as int,
                c2,
            ),
        *final(color) as int == if final(v_colors)@[i_v as int] == *old(color) {
            *old(color) + 1
        } else {
            *old(color) as int
        },
        colors_lt(final(v_colors)@, *final(color) as int),
{
    let n = edges.len();
    let bound = *color;
    let mut taken: Vec<bool> = vec![false; bound];
    let mut j: usize = 0;
    while j < n
        invariant
            j <= n,
            n == edges@.len(),
            g_square(edges@),
            i_v < n,
            v_colors@.len() == n,
            taken@.len() == bound as int,
            forall|c: usize|
                c < bound ==> (#[trigger] taken@[c as int] <==> exists|jj: int|
                    0 <= jj < j && #[trigger] adj(edges@, i_v as int, jj) && v_colors@[jj] == c),
        decreases n - j,
    {
        if edges[i_v][j] {
            let cj = v_colors[j];
            if cj < bound {
                taken[cj] = true;
                proof {
                    assert(adj(edges@, i_v as int, j as int) && v_colors@[j as int] == cj);
                }
            }
        }
        proof {
            assert forall|c: usize| c < bound implies (#[trigger] taken@[c as int] <==> exists|
                jj: int,
            |
                0 <= jj < j + 1 && #[trigger] adj(edges@, i_v as int, jj) && v_colors@[jj]
                    == c) by {
                if taken@[c as int] {
                } else {
                    if exists|jj: int|
                        0 <= jj < j + 1 && #[trigger] adj(edges@, i_v as int, jj) && v_colors@[jj]
                            == c {
                        let jj = choose|jj: int|
                            0 <= jj < j + 1 && #[trigger] adj(edges@, i_v as int, jj)
                                && v_colors@[jj] == c;
                        assert(jj == j);
                        assert(false);
                    }
                }
            }
        }
        j = j + 1;
    }
    proof {
        assert forall|c: usize| c < bound implies (#[trigger] taken@[c as int] <==> color_in_use(
            edges@,
            v_colors@,
            i_v as int,
            c,
        )) by {}
    }
    let mut c: usize = 0;
    while c < bound && taken[c]
        invariant
            c <= bound,
            taken@.len() == bound as int,
            forall|c2: usize|
                c2 < bound ==> (#[trigger] taken@[c2 as int] <==> color_in_use(
                    edges@,
                    v_colors@,
                    i_v as int,
                    c2,
                )),
            forall|c2: usize| c2 < c ==> color_in_use(edges@, v_colors@, i_v as int, c2),
        decreases bound - c,
    {
        c = c + 1;
    }
    if c < bound {
        v_colors[i_v] = c;
    } else {
        proof {
            if color_in_use(edges@, v_colors@, i_v as int, bound) {
                let jj = choose|jj: int|
                    0 <= jj < edges@.len() && #[trigger] adj(edges@, i_v as int, jj)
                        && v_colors@[jj] == bound;
                assert(v_colors@[jj] != usize::MAX && v_colors@[jj] < bound);
                assert(false);
            }
        }
        v_colors[i_v] = bound;
        *color = bound + 1;
    }
}

/// First-Fit: color the vertices in index order, each with the greedy
/// primitive.
pub fn first_fit(edges: &Vec<Vec<bool>>) -> (r: (Vec<usize>, usize))
    requires
        g_well_formed(edges@),
    ensures
        valid_coloring(edges@, r.0@),
        colors_lt(r.0@, r.1 as int),
        r.1 <= edges@.len(),
        edges@.len() == 0 ==> r.1 == 0,
        edges@.len() > 0 ==> r.1 >= 1,
        edges@.len() > 0 && g_edgeless(edges@) ==> r.1 == 1,
        r.0@ == first_fit_spec(edges@).0,
        r.1 as int == first_fit_spec(edges@).1,
{
    let n = edges.len();
    let mut color: usize = 0;
    let mut v_colors: Vec<usize> = vec![usize::MAX; n];
    proof {
        assert(v_colors@ =~= Seq::new(edges@.len(), |v: int| usize::MAX));
    }
    let mut i: usize = 0;
    while i < n
        invariant
            i <= n,
            n == edges@.len(),
            g_well_formed(edges@),
            v_colors@.len() == n,
            color <= i,
            forall|v: int| 0 <= v < i ==> #[trigger] v_colors@[v] != usize::MAX,
            forall|v: int| i <= v < n ==> #[trigger] v_colors@[v] == usize::MAX,
            colors_lt(v_colors@, color as int),
            conflict_free(edges@, v_colors@),
            g_edgeless(edges@) ==> color <= 1,
            v_colors@ == first_fit_upto(edges@, i as int).0,
            color as int == first_fit_upto(edges@, i as int).1,
        decreases n - i,
    {
        let ghost prev_colors = v_colors@;
        let ghost prev_color = color;
        assign_color(i, &mut v_colors, edges, &mut color);
        proof {
            let c = v_colors@[i as int];
            lemma_color_one_vertex(edges@, prev_colors, i as int, c);
            lemma_free_from_pinned(edges@, prev_colors, i as int, 0, c, prev_color);
            assert(first_fit_upto(edges@, i + 1) == first_fit_step(
                edges@,
                first_fit_upto(edges@, i as int),
                i as int,
            ));
            if g_edgeless(edges@) {
                if c > 0 {
                    assert(color_in_use(edges@, prev_colors, i as int, 0));
                    let jj = choose|jj: int|
                        0 <= jj < edges@.len() && #[trigger] adj(edges@, i as int, jj)
                            && prev_colors[jj] == 0usize;
                    assert(false);
                }
            }
        }
        i = i + 1;
    }
    proof {
        if n > 0 {
            assert(v_colors@[0] != usize::MAX);
        }
    }
    (v_colors, color)
}

/// Largest-Degree-Ordering: color the vertices from the highest degree
/// down, each with the greedy primitive.
pub fn largest_degree_ordering(edges: &Vec<Vec<bool>>) -> (r: (Vec<usize>, usize))
    requires
        g_well_formed(edges@),
    ensures
        valid_coloring(edges@, r.0@),
        colors_lt(r.0@, r.1 as int),
        r.1 <= edges@.len(),
        edges@.len() == 0 ==> r.1 == 0,
        edges@.len() > 0 ==> r.1 >= 1,
        edges@.len() > 0 && g_edgeless(edges@) ==> r.1 == 1,
        r.0@ == ldo_spec(edges@).0,
        r.1 as int == ldo_spec(edges@).1,
{
    let n = edges.len();
    let mut color: usize = 0;
    let mut v_colors: Vec<usize> = vec![usize::MAX; n];
    let degrees = degree_list(edges);
    let mut v_is = sorted_index_list(edges, &degrees);
    proof {
        assert(degrees@ =~= spec_degrees(edges@));
        assert(v_colors@ =~= Seq::new(edges@.len(), |v: int| usize::MAX));
    }
    while v_is.len() > 0
        invariant
            n == edges@.len(),
            g_well_formed(edges@),
            v_colors@.len() == n,
            color + v_is@.len() <= n,
            v_is@.no_duplicates(),
            forall|k: int| 0 <= k < v_is@.len() ==> (#[trigger] v_is@[k]) < n,
            forall|k: int| 0 <= k < v_is@.len() ==> v_colors@[#[trigger] v_is@[k] as int]
                == usize::MAX,
            forall|v: int|
                0 <= v < n && #[trigger] v_colors@[v] == usize::MAX ==> v_is@.contains(v as usize),
            colors_lt(v_colors@, color as int),
            conflict_free(edges@, v_colors@),
            g_edgeless(edges@) ==> color <= 1,
            greedy_pops(edges@, v_is@, (v_colors@, color as int)) == ldo_spec(edges@),
        decreases v_is@.len(),
    {
        let ghost prev_pool = v_is@;
        let i_v = match v_is.pop() {
            Some(x) => x,
            None => 0,
        };
        proof {
            lemma_pool_drop_last(prev_pool);
        }
        let ghost prev_colors = v_colors@;
        let ghost prev_color = color;
        assign_color(i_v, &mut v_colors, edges, &mut color);
        proof {
            let c = v_colors@[i_v as int];
            lemma_color_one_vertex(edges@, prev_colors, i_v as int, c);
            lemma_free_from_pinned(edges@, prev_colors, i_v as int, 0, c, prev_color);
            assert(v_is@ =~= prev_pool.drop_last());
            assert((v_colors@, color as int) == first_fit_step(
                edges@,
                (prev_colors, prev_color as int),
                prev_pool.last() as int,
            ));
            if g_edgeless(edges@) {
                if c > 0 {
                    assert(color_in_use(edges@, prev_colors, i_v as int, 0));
                    let jj = choose|jj: int|
                        0 <= jj < edges@.len() && #[trigger] adj(edges@, i_v as int, jj)
                            && prev_colors[jj] == 0usize;
                    assert(false);
                }
            }
            assert forall|v: int|
                0 <= v < n && #[trigger] v_colors@[v] == usize::MAX implies v_is@.contains(
                v as usize,
            ) by {
                assert(prev_colors[v] == usize::MAX);
                assert(v != i_v as int);
                assert(prev_pool.contains(v as usize));
            }
        }
    }
    proof {
        assert forall|v: int| 0 <= v < n implies #[trigger] v_colors@[v] != usize::MAX by {
            if v_colors@[v] == usize::MAX {
                assert(v_is@.contains(v as usize));
            }
        }
        if n > 0 {
            assert(v_colors@[0] != usize::MAX);
        }
    }
    (v_colors, color)
}

} // verus!
