//! The two dynamically ordered heuristics: Incidence-Degree-Ordering and
//! Degree-of-Saturation. Both seed the highest-degree vertex with color
//! zero and then repeatedly pick the remaining vertex with the largest
//! priority key, ties going to the later position in the remaining list.

use vstd::prelude::*;
use crate::graph::{
    adj, degree_list, g_edgeless, g_loopless, g_square, g_symmetric, g_well_formed,
    sorted_index_list,
};
use crate::coloring::{
    all_colored, color_in_use, colors_lt, conflict_free, lemma_color_one_vertex, lemma_pool_remove,
    lemma_pool_drop_last, valid_coloring,
};
use crate::greedy::{assign_color, first_fit_step, lemma_free_from_pinned, spec_degrees};
use crate::graph::spec_sorted_indices;

verus! {

/// The position of the winning entry among the first `k` keys: the
/// largest key, a later position winning ties.
pub open spec fn best_pos_by(keys: Seq<int>, k: int) -> int
    decreases k,
{
    if k <= 1 {
        0
    } else {
        let b = best_pos_by(keys, k - 1);
        if keys[k - 1] >= keys[b] {
            k - 1
        } else {
            b
        }
    }
}

pub proof fn lemma_best_pos_in_range(keys: Seq<int>, k: int)
    requires
        k >= 1,
    ensures
        0 <= best_pos_by(keys, k) < k,
    decreases k,
{
    if k > 1 {
        lemma_best_pos_in_range(keys, k - 1);
    }
}

/// The colored-neighbor counters after vertex `v` is colored: each of its
/// neighbors counts one more.
pub open spec fn ido_bump(g: Seq<Vec<bool>>, counters: Seq<usize>, v: int) -> Seq<usize> {
    Seq::new(
        counters.len(),
        |j: int|
            if adj(g, v, j) {
                (counters[j] + 1) as usize
            } else {
                counters[j]
            },
    )
}

/// The selection keys of the remaining vertices: their colored-neighbor
/// counters, read off position by position.
pub open spec fn ido_keys(pool: Seq<usize>, counters: Seq<usize>) -> Seq<int> {
    Seq::new(pool.len(), |t: int| counters[pool[t] as int] as int)
}

/// The rest of an Incidence-Degree-Ordering run: repeatedly take the
/// remaining vertex with the most colored neighbors, bump its neighbors'
/// counters, and give it the smallest free color.
pub open spec fn ido_rounds(
    g: Seq<Vec<bool>>,
    pool: Seq<usize>,
    counters: Seq<usize>,
    state: (Seq<usize>, int),
) -> (Seq<usize>, int)
    decreases pool.len(),
{
    if pool.len() == 0 {
        state
    } else {
        let t0 = best_pos_by(ido_keys(pool, counters), pool.len() as int);
        let t = if 0 <= t0 < pool.len() {
            t0
        } else {
            0
        };
        let v = pool[t];
        ido_rounds(
            g,
            pool.remove(t),
            ido_bump(g, counters, v as int),
            first_fit_step(g, state, v as int),
        )
    }
}

/// What Incidence-Degree-Ordering returns: a function of the graph alone,
/// so the heuristic is deterministic.
pub open spec fn ido_spec(g: Seq<Vec<bool>>) -> (Seq<usize>, int) {
    if g.len() == 0 {
        (Seq::empty(), 0int)
    } else {
        let order = spec_sorted_indices(spec_degrees(g), g.len() as int);
        let seed = order.last();
        ido_rounds(
            g,
            order.drop_last(),
            ido_bump(g, Seq::new(g.len(), |j: int| 0usize), seed as int),
            (Seq::new(g.len(), |v: int| usize::MAX).update(seed as int, 0usize), 1int),
        )
    }
}

/// The saturation degree at specification level: how many color ids
/// below `bound` some neighbor of `v` already carries.
pub open spec fn sat_upto(g: Seq<Vec<bool>>, colors: Seq<usize>, v: int, bound: int) -> int
    decreases bound,
{
    if bound <= 0 {
        0
    } else {
        sat_upto(g, colors, v, bound - 1) + if color_in_use(g, colors, v, (bound - 1) as usize) {
            1int
        } else {
            0int
        }
    }
}

/// The saturation degree of `v`: how many distinct colors below `bound`
/// its already-colored neighbors carry. Recomputed from the coloring, so
/// it always agrees with the incremental saturation sets it replaces.
fn saturation_of(edges: &Vec<Vec<bool>>, v_colors: &Vec<usize>, v: usize, bound: usize) -> (r:
    usize)
    requires
        g_square(edges@),
        v_colors@.len() == edges@.len(),
        v < edges@.len(),
        colors_lt(v_colors@, bound as int),
    ensures
        r as int == sat_upto(edges@, v_colors@, v as int, bound as int),
{
    let n = edges.len();
    let mut seen: Vec<bool> = vec![false; bound];
    let mut j: usize = 0;
    while j < n
        invariant
            j <= n,
            n == edges@.len(),
            g_square(edges@),
            v < n,
            v_colors@.len() == n,
            seen@.len() == bound as int,
            forall|c: usize|
                c < bound ==> (#[trigger] seen@[c as int] <==> exists|jj: int|
                    0 <= jj < j && #[trigger] adj(edges@, v as int, jj) && v_colors@[jj] == c),
        decreases n - j,
    {
        if edges[v][j] {
            let cj = v_colors[j];
            if cj < bound {
                seen[cj] = true;
                proof {
                    assert(adj(edges@, v as int, j as int) && v_colors@[j as int] == cj);
                }
            }
        }
        proof {
            assert forall|c: usize| c < bound implies (#[trigger] seen@[c as int] <==> exists|
                jj: int,
            |
                0 <= jj < j + 1 && #[trigger] adj(edges@, v as int, jj) && v_colors@[jj]
                    == c) by {
                if seen@[c as int] {
                } else {
                    if exists|jj: int|
                        0 <= jj < j + 1 && #[trigger] adj(edges@, v as int, jj) && v_colors@[jj]
                            == c {
                        let jj = choose|jj: int|
                            0 <= jj < j + 1 && #[trigger] adj(edges@, v as int, jj) && v_colors@[jj]
                                == c;
                        assert(jj == j);
                        assert(false);
                    }
                }
            }
        }
        j = j + 1;
    }
    proof {
        assert forall|c: usize| c < bound implies (#[trigger] seen@[c as int] <==> color_in_use(
            edges@,
            v_colors@,
            v as int,
            c,
        )) by {}
    }
    let mut count: usize = 0;
    let mut c: usize = 0;
    while c < bound
        invariant
            c <= bound,
            count <= c,
            seen@.len() == bound as int,
            forall|c2: usize|
                c2 < bound ==> (#[trigger] seen@[c2 as int] <==> color_in_use(
                    edges@,
                    v_colors@,
                    v as int,
                    c2,
                )),
            count as int == sat_upto(edges@, v_colors@, v as int, c as int),
        decreases bound - c,
    {
        if seen[c] {
            count = count + 1;
        }
        c = c + 1;
    }
    count
}

/// The selection keys of the remaining vertices: their saturation
/// degrees, read off position by position.
pub open spec fn dsatur_keys(
    g: Seq<Vec<bool>>,
    pool: Seq<usize>,
    colors: Seq<usize>,
    bound: int,
) -> Seq<int> {
    Seq::new(pool.len(), |t: int| sat_upto(g, colors, pool[t] as int, bound))
}

/// The rest of a Degree-of-Saturation run: repeatedly take the remaining
/// vertex with the largest saturation degree and give it the smallest
/// free color.
pub open spec fn dsatur_rounds(g: Seq<Vec<bool>>, pool: Seq<usize>, state: (Seq<usize>, int)) -> (
    Seq<usize>,
    int,
)
    decreases pool.len(),
{
    if pool.len() == 0 {
        state
    } else {
        let t0 = best_pos_by(dsatur_keys(g, pool, state.0, state.1), pool.len() as int);
        let t = if 0 <= t0 < pool.len() {
            t0
        } else {
            0
        };
        let v = pool[t];
        dsatur_rounds(g, pool.remove(t), first_fit_step(g, state, v as int))
    }
}

/// What Degree-of-Saturation returns: a function of the graph alone, so
/// the heuristic is deterministic.
pub open spec fn dsatur_spec(g: Seq<Vec<bool>>) -> (Seq<usize>, int) {
    if g.len() == 0 {
        (Seq::empty(), 0int)
    } else {
        let order = spec_sorted_indices(spec_degrees(g), g.len() as int);
        let seed = order.last();
        dsatur_rounds(
            g,
            order.drop_last(),
            (Seq::new(g.len(), |v: int| usize::MAX).update(seed as int, 0usize), 1int),
        )
    }
}

/// Incidence-Degree-Ordering: the priority key of a vertex is how many of
/// its neighbors are already colored, kept in a per-vertex counter.
pub fn incidence_degree_ordering(edges: &Vec<Vec<bool>>) -> (r: (Vec<usize>, usize))
    requires
        g_well_formed(edges@),
    ensures
        valid_coloring(edges@, r.0@),
        colors_lt(r.0@, r.1 as int),
        r.1 <= edges@.len(),
        edges@.len() == 0 ==> r.1 == 0,
        edges@.len() > 0 ==> r.1 >= 1,
        edges@.len() > 0 && g_edgeless(edges@) ==> r.1 == 1,
        r.0@ == ido_spec(edges@).0,
        r.1 as int == ido_spec(edges@).1,
{
    let n = edges.len();
    if n == 0 {
        let empty: Vec<usize> = Vec::new();
        proof {
            assert(empty@ =~= Seq::<usize>::empty());
        }
        return (empty, 0);
    }
    let mut color: usize = 1;
    let mut v_colors: Vec<usize> = vec![usize::MAX; n];
    let degrees = degree_list(edges);
    let mut v_is = sorted_index_list(edges, &degrees);
    let mut colored_adjs: Vec<usize> = vec![0; n];
    let ghost zero_counters = colored_adjs@;

    let ghost pool0 = v_is@;
    let i_vmax = match v_is.pop() {
        Some(x) => x,
        None => 0,
    };
    proof {
        lemma_pool_drop_last(pool0);
    }
    let ghost before_seed = v_colors@;
    v_colors[i_vmax] = 0;
    proof {
        if color_in_use(edges@, before_seed, i_vmax as int, 0) {
            let jj = choose|jj: int|
                0 <= jj < edges@.len() && #[trigger] adj(edges@, i_vmax as int, jj)
                    && before_seed[jj] == 0usize;
            assert(false);
        }
        lemma_color_one_vertex(edges@, before_seed, i_vmax as int, 0);
    }
    let mut j: usize = 0;
    while j < n
        invariant
            j <= n,
            n == edges@.len(),
            g_square(edges@),
            i_vmax < n,
            colored_adjs@.len() == n,
            zero_counters.len() == n,
            forall|jj: int| 0 <= jj < n ==> #[trigger] zero_counters[jj] == 0usize,
            forall|jj: int|
                0 <= jj < j ==> #[trigger] colored_adjs@[jj] == (if adj(edges@, i_vmax as int, jj) {
                    1usize
                } else {
                    0usize
                }),
            forall|jj: int| j <= jj < n ==> #[trigger] colored_adjs@[jj] == 0usize,
        decreases n - j,
    {
        if edges[i_vmax][j] {
            colored_adjs[j] = 1;
        }
        j = j + 1;
    }
    proof {
        assert(colored_adjs@ =~= ido_bump(edges@, zero_counters, i_vmax as int));
        assert(zero_counters =~= Seq::new(edges@.len(), |jj: int| 0usize));
        assert(pool0 == spec_sorted_indices(spec_degrees(edges@), edges@.len() as int)) by {
            assert(degrees@ =~= spec_degrees(edges@));
        }
        assert(i_vmax == pool0.last());
        assert(before_seed =~= Seq::new(edges@.len(), |v: int| usize::MAX));
        assert(v_colors@ == before_seed.update(i_vmax as int, 0usize));
        assert(ido_rounds(edges@, v_is@, colored_adjs@, (v_colors@, color as int)) == ido_spec(
            edges@,
        ));
    }

    while v_is.len() > 0
        invariant
            n == edges@.len(),
            n > 0,
            g_well_formed(edges@),
            v_colors@.len() == n,
            colored_adjs@.len() == n,
            color >= 1,
            color + v_is@.len() <= n,
            v_is@.no_duplicates(),
            forall|k: int| 0 <= k < v_is@.len() ==> (#[trigger] v_is@[k]) < n,
            forall|k: int| 0 <= k < v_is@.len() ==> v_colors@[#[trigger] v_is@[k] as int]
                == usize::MAX,
            forall|v: int|
                0 <= v < n && #[trigger] v_colors@[v] == usize::MAX ==> v_is@.contains(v as usize),
            colors_lt(v_colors@, color as int),
            conflict_free(edges@, v_colors@),
            forall|jj: int| 0 <= jj < n ==> (#[trigger] colored_adjs@[jj]) + v_is@.len() <= n,
            g_edgeless(edges@) ==> color == 1,
            ido_rounds(edges@, v_is@, colored_adjs@, (v_colors@, color as int)) == ido_spec(
                edges@,
            ),
        decreases v_is@.len(),
    {
        let mut i_imax: usize = 0;
        let mut k: usize = 1;
        while k < v_is.len()
            invariant
                v_is@.len() > 0,
                i_imax < k,
                k <= v_is@.len(),
                n == edges@.len(),
                colored_adjs@.len() == n,
                forall|t: int| 0 <= t < v_is@.len() ==> (#[trigger] v_is@[t]) < n,
                forall|t: int|
                    0 <= t < k ==> colored_adjs@[#[trigger] v_is@[t] as int]
                        < colored_adjs@[v_is@[i_imax as int] as int] || (colored_adjs@[v_is@[t] as int]
                        == colored_adjs@[v_is@[i_imax as int] as int] && t <= i_imax),
                i_imax as int == best_pos_by(ido_keys(v_is@, colored_adjs@), k as int),
            decreases v_is@.len() - k,
        {
            if colored_adjs[v_is[k]] >= colored_adjs[v_is[i_imax]] {
                i_imax = k;
            }
            k = k + 1;
        }
        let ghost prev_pool = v_is@;
        let ghost prev_counters = colored_adjs@;
        let ghost prev_color = color;
        let i_v = v_is.remove(i_imax);
        proof {
            lemma_pool_remove(prev_pool, i_imax as int);
            lemma_best_pos_in_range(ido_keys(prev_pool, prev_counters), prev_pool.len() as int);
            assert(i_v == prev_pool[i_imax as int]);
        }

        let mut j: usize = 0;
        while j < n
            invariant
                j <= n,
                n == edges@.len(),
                g_square(edges@),
                i_v < n,
                colored_adjs@.len() == n,
                prev_counters.len() == n,
                forall|jj: int| 0 <= jj < j ==> (#[trigger] colored_adjs@[jj]) + v_is@.len() <= n,
                forall|jj: int|
                    j <= jj < n ==> (#[trigger] colored_adjs@[jj]) + v_is@.len() + 1 <= n,
                forall|jj: int|
                    0 <= jj < j ==> #[trigger] colored_adjs@[jj] == (if adj(edges@, i_v as int, jj) {
                        (prev_counters[jj] + 1) as usize
                    } else {
                        prev_counters[jj]
                    }),
                forall|jj: int| j <= jj < n ==> #[trigger] colored_adjs@[jj] == prev_counters[jj],
        decreases n - j,
        {
            if edges[i_v][j] {
                colored_adjs[j] = colored_adjs[j] + 1;
            } else {
                proof {
                    assert(colored_adjs@[j as int] + v_is@.len() <= n);
                }
            }
            j = j + 1;
        }

        let ghost prev_colors = v_colors@;
        assign_color(i_v, &mut v_colors, edges, &mut color);
        proof {
            let c = v_colors@[i_v as int];
            lemma_color_one_vertex(edges@, prev_colors, i_v as int, c);
            lemma_free_from_pinned(edges@, prev_colors, i_v as int, 0, c, prev_color);
            assert(colored_adjs@ =~= ido_bump(edges@, prev_counters, i_v as int));
            assert((v_colors@, color as int) == first_fit_step(
                edges@,
                (prev_colors, prev_color as int),
                i_v as int,
            ));
            assert(ido_rounds(edges@, v_is@, colored_adjs@, (v_colors@, color as int))
                == ido_rounds(edges@, prev_pool, prev_counters, (prev_colors, prev_color as int)));
            if g_edgeless(edges@) {
                if c > 0 {
                    assert(color_in_use(edges@, prev_colors, i_v as int, 0));
                    let jj = choose|jj: int|
                        0 <= jj < edges@.len() && #[trigger] adj(edges@, i_v as int, jj)
                            && prev_colors[jj] == 0usize;
                    assert(false);
                }
            }
            assert forall|v: int|
                0 <= v < n && #[trigger] v_colors@[v] == usize::MAX implies v_is@.contains(
                v as usize,
            ) by {
                assert(prev_colors[v] == usize::MAX);
                assert(v != i_v as int);
                assert(prev_pool.contains(v as usize));
            }
        }
    }
    proof {
        assert forall|v: int| 0 <= v < n implies #[trigger] v_colors@[v] != usize::MAX by {
            if v_colors@[v] == usize::MAX {
                assert(v_is@.contains(v as usize));
            }
        }
    }
    (v_colors, color)
}

/// Degree-of-Saturation: the priority key of a vertex is its saturation
/// degree, the number of distinct colors among its colored neighbors.
pub fn degree_of_saturation(edges: &Vec<Vec<bool>>) -> (r: (Vec<usize>, usize))
    requires
        g_well_formed(edges@),
    ensures
        valid_coloring(edges@, r.0@),
        colors_lt(r.0@, r.1 as int),
        r.1 <= edges@.len(),
        edges@.len() == 0 ==> r.1 == 0,
        edges@.len() > 0 ==> r.1 >= 1,
        edges@.len() > 0 && g_edgeless(edges@) ==> r.1 == 1,
        r.0@ == dsatur_spec(edges@).0,
        r.1 as int == dsatur_spec(edges@).1,
{
    let n = edges.len();
    if n == 0 {
        let empty: Vec<usize> = Vec::new();
        proof {
            assert(empty@ =~= Seq::<usize>::empty());
        }
        return (empty, 0);
    }
    let mut color: usize = 1;
    let mut v_colors: Vec<usize> = vec![usize::MAX; n];
    let degrees = degree_list(edges);
    let mut v_is = sorted_index_list(edges, &degrees);

    let ghost pool0 = v_is@;
    let i_vmax = match v_is.pop() {
        Some(x) => x,
        None => 0,
    };
    proof {
        lemma_pool_drop_last(pool0);
    }
    let ghost before_seed = v_colors@;
    v_colors[i_vmax] = 0;
    proof {
        if color_in_use(edges@, before_seed, i_vmax as int, 0) {
            let jj = choose|jj: int|
                0 <= jj < edges@.len() && #[trigger] adj(edges@, i_vmax as int, jj)
                    && before_seed[jj] == 0usize;
            assert(false);
        }
        lemma_color_one_vertex(edges@, before_seed, i_vmax as int, 0);
        assert(pool0 == spec_sorted_indices(spec_degrees(edges@), edges@.len() as int)) by {
            assert(degrees@ =~= spec_degrees(edges@));
        }
        assert(i_vmax == pool0.last());
        assert(before_seed =~= Seq::new(edges@.len(), |v: int| usize::MAX));
        assert(v_colors@ == before_seed.update(i_vmax as int, 0usize));
        assert(dsatur_rounds(edges@, v_is@, (v_colors@, color as int)) == dsatur_spec(edges@));
    }

    while v_is.len() > 0
        invariant
            n == edges@.len(),
            n > 0,
            g_well_formed(edges@),
            v_colors@.len() == n,
            color >= 1,
            color + v_is@.len() <= n,
            v_is@.no_duplicates(),
            forall|k: int| 0 <= k < v_is@.len() ==> (#[trigger] v_is@[k]) < n,
            forall|k: int| 0 <= k < v_is@.len() ==> v_colors@[#[trigger] v_is@[k] as int]
                == usize::MAX,
            forall|v: int|
                0 <= v < n && #[trigger] v_colors@[v] == usize::MAX ==> v_is@.contains(v as usize),
            colors_lt(v_colors@, color as int),
            conflict_free(edges@, v_colors@),
            g_edgeless(edges@) ==> color == 1,
            dsatur_rounds(edges@, v_is@, (v_colors@, color as int)) == dsatur_spec(edges@),
        decreases v_is@.len(),
    {
        let mut i_imax: usize = 0;
        let mut best_key: usize = saturation_of(edges, &v_colors, v_is[0], color);
        let mut k: usize = 1;
        while k < v_is.len()
            invariant
                v_is@.len() > 0,
                i_imax < k,
                k <= v_is@.len(),
                n == edges@.len(),
                g_square(edges@),
                v_colors@.len() == n,
                colors_lt(v_colors@, color as int),
                forall|t: int| 0 <= t < v_is@.len() ==> (#[trigger] v_is@[t]) < n,
                i_imax as int == best_pos_by(
                    dsatur_keys(edges@, v_is@, v_colors@, color as int),
                    k as int,
                ),
                best_key as int == dsatur_keys(edges@, v_is@, v_colors@, color as int)[i_imax as int],
            decreases v_is@.len() - k,
        {
            let key = saturation_of(edges, &v_colors, v_is[k], color);
            if key >= best_key {
                i_imax = k;
                best_key = key;
            }
            k = k + 1;
        }
        let ghost prev_pool = v_is@;
        let ghost prev_color = color;
        let i_v = v_is.remove(i_imax);
        proof {
            lemma_pool_remove(prev_pool, i_imax as int);
            lemma_best_pos_in_range(
                dsatur_keys(edges@, prev_pool, v_colors@, color as int),
                prev_pool.len() as int,
            );
            assert(i_v == prev_pool[i_imax as int]);
        }

        let ghost prev_colors = v_colors@;
        assign_color(i_v, &mut v_colors, edges, &mut color);
        proof {
            let c = v_colors@[i_v as int];
            lemma_color_one_vertex(edges@, prev_colors, i_v as int, c);
            lemma_free_from_pinned(edges@, prev_colors, i_v as int, 0, c, prev_color);
            assert((v_colors@, color as int) == first_fit_step(
                edges@,
                (prev_colors, prev_color as int),
                i_v as int,
            ));
            assert(dsatur_rounds(edges@, v_is@, (v_colors@, color as int)) == dsatur_rounds(
                edges@,
                prev_pool,
                (prev_colors, prev_color as int),
            ));
            if g_edgeless(edges@) {
                if c > 0 {
                    assert(color_in_use(edges@, prev_colors, i_v as int, 0));
                    let jj = choose|jj: int|
                        0 <= jj < edges@.len() && #[trigger] adj(edges@, i_v as int, jj)
                            && prev_colors[jj] == 0usize;
                    assert(false);
                }
            }
            assert forall|v: int|
                0 <= v < n && #[trigger] v_colors@[v] == usize::MAX implies v_is@.contains(
                v as usize,
            ) by {
                assert(prev_colors[v] == usize::MAX);
                assert(v != i_v as int);
                assert(prev_pool.contains(v as usize));
            }
        }
    }
    proof {
        assert forall|v: int| 0 <= v < n implies #[trigger] v_colors@[v] != usize::MAX by {
            if v_colors@[v] == usize::MAX {
                assert(v_is@.contains(v as usize));
            }
        }
    }
    (v_colors, color)
}

} // verus!
