//! Welsh-Powell: build one color class per round, seeded by the
//! highest-degree remaining vertex and greedily extended to an independent
//! set of the candidates not adjacent to it.

use vstd::prelude::*;
use crate::graph::{adj, degree_list, g_edgeless, g_well_formed, sorted_index_list};
use crate::coloring::{
    all_colored, color_in_use, colors_lt, conflict_free, lemma_color_one_vertex, lemma_pool_remove,
    lemma_pool_drop_last, valid_coloring,
};

verus! {

broadcast use vstd::prelude::Seq::lemma_filter_len, vstd::prelude::Seq::lemma_filter_push;

/// The candidate positions for the class of the seed `vmax`: the
/// positions of the remaining list whose vertex is not adjacent to it,
/// scanned in order.
pub open spec fn wp_candidates_upto(
    g: Seq<Vec<bool>>,
    pool: Seq<usize>,
    vmax: usize,
    k: int,
) -> Seq<usize>
    decreases k,
{
    if k <= 0 {
        Seq::empty()
    } else {
        let r = wp_candidates_upto(g, pool, vmax, k - 1);
        if !adj(g, vmax as int, pool[k - 1] as int) {
            r.push((k - 1) as usize)
        } else {
            r
        }
    }
}

/// The candidates still compatible once `iv` joined the class: those
/// whose vertex is not adjacent to it.
pub open spec fn wp_compatible(
    g: Seq<Vec<bool>>,
    pool: Seq<usize>,
    iv: usize,
    cand: Seq<usize>,
) -> Seq<usize> {
    cand.filter(|q: usize| !adj(g, iv as int, pool[q as int] as int))
}

/// One class of a Welsh-Powell round: absorb the candidates from the
/// last position forward, each absorption removing the vertex from the
/// pool, coloring it, and pruning the candidates adjacent to it.
pub open spec fn wp_class(
    g: Seq<Vec<bool>>,
    pool: Seq<usize>,
    cand: Seq<usize>,
    colors: Seq<usize>,
    c: usize,
) -> (Seq<usize>, Seq<usize>)
    decreases cand.len(),
{
    if cand.len() == 0 {
        (pool, colors)
    } else {
        let p = cand.last();
        if (p as int) < pool.len() {
            let iv = pool[p as int];
            let pool2 = pool.remove(p as int);
            let colors2 = colors.update(iv as int, c);
            wp_class(g, pool2, wp_compatible(g, pool2, iv, cand.drop_last()), colors2, c)
        } else {
            (pool, colors)
        }
    }
}

proof fn lemma_wp_class_pool_len(
    g: Seq<Vec<bool>>,
    pool: Seq<usize>,
    cand: Seq<usize>,
    colors: Seq<usize>,
    c: usize,
)
    ensures
        wp_class(g, pool, cand, colors, c).0.len() <= pool.len(),
    decreases cand.len(),
{
    if cand.len() != 0 {
        let p = cand.last();
        if (p as int) < pool.len() {
            let iv = pool[p as int];
            let pool2 = pool.remove(p as int);
            let colors2 = colors.update(iv as int, c);
            lemma_wp_class_pool_len(g, pool2, wp_compatible(g, pool2, iv, cand.drop_last()), colors2, c);
        }
    }
}

/// The rest of a Welsh-Powell run: each round pops the highest-degree
/// remaining vertex, colors it with the next fresh color, and absorbs a
/// greedy independent set of the compatible candidates into its class.
pub open spec fn wp_rounds(
    g: Seq<Vec<bool>>,
    pool: Seq<usize>,
    colors: Seq<usize>,
    c: usize,
) -> (Seq<usize>, int)
    decreases pool.len(),
    via wp_rounds_decreases
{
    if pool.len() == 0 {
        (colors, c as int)
    } else {
        let vmax = pool.last();
        let pool1 = pool.drop_last();
        let colors1 = colors.update(vmax as int, c);
        let cls = wp_class(
            g,
            pool1,
            wp_candidates_upto(g, pool1, vmax, pool1.len() as int),
            colors1,
            c,
        );
        wp_rounds(g, cls.0, cls.1, (c + 1) as usize)
    }
}

#[via_fn]
proof fn wp_rounds_decreases(g: Seq<Vec<bool>>, pool: Seq<usize>, colors: Seq<usize>, c: usize) {
    if pool.len() > 0 {
        let vmax = pool.last();
        let pool1 = pool.drop_last();
        let colors1 = colors.update(vmax as int, c);
        lemma_wp_class_pool_len(
            g,
            pool1,
            wp_candidates_upto(g, pool1, vmax, pool1.len() as int),
            colors1,
            c,
        );
    }
}

/// What Welsh-Powell returns: a function of the graph alone, so the
/// heuristic is deterministic.
pub open spec fn wp_spec(g: Seq<Vec<bool>>) -> (Seq<usize>, int) {
    wp_rounds(
        g,
        crate::graph::spec_sorted_indices(crate::greedy::spec_degrees(g), g.len() as int),
        Seq::new(g.len(), |v: int| usize::MAX),
        0usize,
    )
}

/// The class built in the current round is the set of vertices already
/// given the color `c`; every listed candidate must stay compatible with
/// (that is, non-adjacent to) each of its members.
pub open spec fn candidates_fit_class(
    g: Seq<Vec<bool>>,
    colors: Seq<usize>,
    pool: Seq<usize>,
    cand: Seq<usize>,
    c: usize,
) -> bool {
    forall|t: int, u: int|
        0 <= t < cand.len() && 0 <= u < g.len() && colors[u] == c ==> !#[trigger] adj(
            g,
            u,
            pool[cand[t] as int] as int,
        )
}

pub fn welsh_powell(edges: &Vec<Vec<bool>>) -> (r: (Vec<usize>, usize))
    requires
        g_well_formed(edges@),
    ensures
        valid_coloring(edges@, r.0@),
        colors_lt(r.0@, r.1 as int),
        r.1 <= edges@.len(),
        edges@.len() == 0 ==> r.1 == 0,
        edges@.len() > 0 ==> r.1 >= 1,
        edges@.len() > 0 && g_edgeless(edges@) ==> r.1 == 1,
        r.0@ == wp_spec(edges@).0,
        r.1 as int == wp_spec(edges@).1,
{
    let n = edges.len();
    let mut color: usize = 0;
    let mut v_colors: Vec<usize> = vec![usize::MAX; n];
    let degrees = degree_list(edges);
    let mut v_is = sorted_index_list(edges, &degrees);
    proof {
        assert(degrees@ =~= crate::greedy::spec_degrees(edges@));
        assert(v_colors@ =~= Seq::new(edges@.len(), |v: int| usize::MAX));
    }

    while v_is.len() > 0
        invariant
            n == edges@.len(),
            g_well_formed(edges@),
            v_colors@.len() == n,
            color + v_is@.len() <= n,
            v_is@.no_duplicates(),
            forall|k: int| 0 <= k < v_is@.len() ==> (#[trigger] v_is@[k]) < n,
            forall|k: int| 0 <= k < v_is@.len() ==> v_colors@[#[trigger] v_is@[k] as int]
                == usize::MAX,
            forall|v: int|
                0 <= v < n && #[trigger] v_colors@[v] == usize::MAX ==> v_is@.contains(v as usize),
            colors_lt(v_colors@, color as int),
            conflict_free(edges@, v_colors@),
            g_edgeless(edges@) ==> ((color == 0 && v_is@.len() == n) || (color == 1
                && v_is@.len() == 0)),
            wp_rounds(edges@, v_is@, v_colors@, color) == wp_spec(edges@),
        decreases v_is@.len(),
    {
        let ghost round_pool = v_is@;
        let ghost round_colors = v_colors@;
        let ghost round_color = color;
        let ghost prev_pool = v_is@;
        let i_vmax = match v_is.pop() {
            Some(x) => x,
            None => 0,
        };
        proof {
            lemma_pool_drop_last(prev_pool);
        }
        let ghost colors0 = v_colors@;
        v_colors[i_vmax] = color;
        proof {
            if color_in_use(edges@, colors0, i_vmax as int, color) {
                let jj = choose|jj: int|
                    0 <= jj < edges@.len() && #[trigger] adj(edges@, i_vmax as int, jj)
                        && colors0[jj] == color;
                assert(colors0[jj] != usize::MAX);
                assert(false);
            }
            lemma_color_one_vertex(edges@, colors0, i_vmax as int, color);
            assert forall|v: int|
                0 <= v < n && #[trigger] v_colors@[v] == usize::MAX implies v_is@.contains(
                v as usize,
            ) by {
                assert(colors0[v] == usize::MAX);
                assert(v != i_vmax as int);
                assert(prev_pool.contains(v as usize));
            }
        }

        // the candidates for this class: positions in the remaining list
        // whose vertex is not adjacent to the seed
        let mut not_adj: Vec<usize> = Vec::new();
        let mut k: usize = 0;
        while k < v_is.len()
            invariant
                k <= v_is@.len(),
                n == edges@.len(),
                g_well_formed(edges@),
                i_vmax < n,
                v_colors@.len() == n,
                forall|t: int| 0 <= t < v_is@.len() ==> (#[trigger] v_is@[t]) < n,
                forall|a: int, b: int| 0 <= a < b < not_adj@.len() ==> not_adj@[a] < not_adj@[b],
                forall|t: int| 0 <= t < not_adj@.len() ==> (#[trigger] not_adj@[t]) < k,
                forall|t: int|
                    0 <= t < not_adj@.len() ==> !adj(
                        edges@,
                        i_vmax as int,
                        v_is@[#[trigger] not_adj@[t] as int] as int,
                    ),
                g_edgeless(edges@) ==> not_adj@.len() == k,
                not_adj@ == wp_candidates_upto(edges@, v_is@, i_vmax, k as int),
            decreases v_is@.len() - k,
        {
            if !edges[i_vmax][v_is[k]] {
                not_adj.push(k);
            } else {
                proof {
                    if g_edgeless(edges@) {
                        assert(adj(edges@, i_vmax as int, v_is@[k as int] as int));
                        assert(!adj(edges@, i_vmax as int, v_is@[k as int] as int));
                    }
                }
            }
            k = k + 1;
        }
        proof {
            assert forall|t: int, u: int|
                0 <= t < not_adj@.len() && 0 <= u < n && v_colors@[u] == color implies !#[trigger] adj(
                edges@,
                u,
                v_is@[not_adj@[t] as int] as int,
            ) by {
                // only the seed carries the current color so far
                if u != i_vmax as int {
                    assert(colors0[u] == v_colors@[u]);
                    assert(colors0[u] != usize::MAX && colors0[u] < color);
                }
            }
        }

        let ghost cls_target = wp_class(edges@, v_is@, not_adj@, v_colors@, color);
        proof {
            assert(wp_rounds(edges@, round_pool, round_colors, round_color) == wp_rounds(
                edges@,
                cls_target.0,
                cls_target.1,
                (round_color + 1) as usize,
            ));
        }

        while not_adj.len() > 0
            invariant
                v_is@.len() < prev_pool.len(),
                color == round_color,
                wp_class(edges@, v_is@, not_adj@, v_colors@, color) == cls_target,
                n == edges@.len(),
                g_well_formed(edges@),
                v_colors@.len() == n,
                color as int + v_is@.len() + 1 <= n,
                v_is@.no_duplicates(),
                forall|t: int| 0 <= t < v_is@.len() ==> (#[trigger] v_is@[t]) < n,
                forall|t: int| 0 <= t < v_is@.len() ==> v_colors@[#[trigger] v_is@[t] as int]
                    == usize::MAX,
                forall|v: int|
                    0 <= v < n && #[trigger] v_colors@[v] == usize::MAX ==> v_is@.contains(
                        v as usize,
                    ),
                colors_lt(v_colors@, color as int + 1),
                conflict_free(edges@, v_colors@),
                forall|a: int, b: int| 0 <= a < b < not_adj@.len() ==> not_adj@[a] < not_adj@[b],
                forall|t: int| 0 <= t < not_adj@.len() ==> (#[trigger] not_adj@[t])
                    < v_is@.len(),
                candidates_fit_class(edges@, v_colors@, v_is@, not_adj@, color),
                g_edgeless(edges@) ==> not_adj@.len() == v_is@.len(),
            decreases not_adj@.len(),
        {
            let ghost prev_na = not_adj@;
            let i_i = match not_adj.pop() {
                Some(x) => x,
                None => 0,
            };
            let ghost prev_pool2 = v_is@;
            let i_v = v_is.remove(i_i);
            proof {
                lemma_pool_remove(prev_pool2, i_i as int);
                // entries left in the candidate list sit before the removed
                // position, so they still name the same vertices
                assert forall|t: int| 0 <= t < not_adj@.len() implies not_adj@[t] < i_i by {
                    assert(prev_na[t] < prev_na[prev_na.len() - 1]);
                }
            }
            let ghost colors1 = v_colors@;
            v_colors[i_v] = color;
            proof {
                if color_in_use(edges@, colors1, i_v as int, color) {
                    let u = choose|u: int|
                        0 <= u < edges@.len() && #[trigger] adj(edges@, i_v as int, u) && colors1[u]
                            == color;
                    assert(!adj(edges@, u, prev_pool2[prev_na[prev_na.len() - 1] as int] as int));
                    assert(adj(edges@, u, i_v as int));
                    assert(false);
                }
                lemma_color_one_vertex(edges@, colors1, i_v as int, color);
                assert forall|v: int|
                    0 <= v < n && #[trigger] v_colors@[v] == usize::MAX implies v_is@.contains(
                    v as usize,
                ) by {
                    assert(colors1[v] == usize::MAX);
                    assert(v != i_v as int);
                    assert(prev_pool2.contains(v as usize));
                }
            }

            proof {
                // the surviving candidate positions sit before the removed
                // one, so they still name the same vertices, which fit the
                // class as it stood before this round's new member
                assert forall|tt: int, u: int|
                    0 <= tt < not_adj@.len() && 0 <= u < n && colors1[u] == color implies !#[trigger] adj(
                    edges@,
                    u,
                    v_is@[not_adj@[tt] as int] as int,
                ) by {
                    assert(not_adj@[tt] == prev_na[tt]);
                    assert(not_adj@[tt] < i_i);
                    assert(v_is@[not_adj@[tt] as int] == prev_pool2[prev_na[tt] as int]);
                    assert(!adj(edges@, u, prev_pool2[prev_na[tt] as int] as int));
                }
            }
            // keep only the candidates compatible with the vertex just added
            let mut kept: Vec<usize> = Vec::new();
            let mut t: usize = 0;
            while t < not_adj.len()
                invariant
                    t <= not_adj@.len(),
                    n == edges@.len(),
                    g_well_formed(edges@),
                    i_v < n,
                    v_colors@.len() == n,
                    forall|s: int| 0 <= s < v_is@.len() ==> (#[trigger] v_is@[s]) < n,
                    forall|a: int, b: int| 0 <= a < b < not_adj@.len() ==> not_adj@[a]
                        < not_adj@[b],
                    forall|s: int| 0 <= s < not_adj@.len() ==> (#[trigger] not_adj@[s])
                        < v_is@.len(),
                    candidates_fit_class(edges@, colors1, v_is@, not_adj@, color),
                    forall|a: int, b: int| 0 <= a < b < kept@.len() ==> kept@[a] < kept@[b],
                    forall|s: int| 0 <= s < kept@.len() ==> (#[trigger] kept@[s]) < v_is@.len(),
                    kept@.len() <= t,
                    forall|s: int|
                        0 <= s < kept@.len() ==> exists|s0: int|
                            0 <= s0 < t && #[trigger] kept@[s] == not_adj@[s0],
                    candidates_fit_class(edges@, colors1, v_is@, kept@, color),
                    forall|s: int|
                        0 <= s < kept@.len() ==> !adj(
                            edges@,
                            i_v as int,
                            v_is@[#[trigger] kept@[s] as int] as int,
                        ),
                    g_edgeless(edges@) ==> kept@.len() == t,
                    kept@ == wp_compatible(edges@, v_is@, i_v, not_adj@.subrange(0, t as int)),
                decreases not_adj@.len() - t,
            {
                let p = not_adj[t];
                proof {
                    assert(not_adj@.subrange(0, t as int + 1) =~= not_adj@.subrange(
                        0,
                        t as int,
                    ).push(p));
                }
                if !edges[i_v][v_is[p]] {
                    proof {
                        if kept@.len() > 0 {
                            let s0 = choose|s0: int|
                                0 <= s0 < t && kept@[kept@.len() - 1] == not_adj@[s0];
                            assert(not_adj@[s0] < not_adj@[t as int]);
                        }
                    }
                    kept.push(p);
                } else {
                    proof {
                        if g_edgeless(edges@) {
                            assert(adj(edges@, i_v as int, v_is@[p as int] as int));
                            assert(!adj(edges@, i_v as int, v_is@[p as int] as int));
                        }
                    }
                }
                t = t + 1;
            }
            not_adj = kept;
            proof {
                assert(not_adj@ == wp_compatible(
                    edges@,
                    v_is@,
                    i_v,
                    prev_na.drop_last().subrange(0, prev_na.drop_last().len() as int),
                ));
                assert(prev_na.drop_last().subrange(0, prev_na.drop_last().len() as int)
                    =~= prev_na.drop_last());
                assert(wp_class(edges@, prev_pool2, prev_na, colors1, color) == wp_class(
                    edges@,
                    v_is@,
                    not_adj@,
                    v_colors@,
                    color,
                ));
                assert forall|tt: int, u: int|
                    0 <= tt < not_adj@.len() && 0 <= u < n && v_colors@[u] == color implies !#[trigger] adj(
                    edges@,
                    u,
                    v_is@[not_adj@[tt] as int] as int,
                ) by {
                    if u == i_v as int {
                        assert(!adj(edges@, i_v as int, v_is@[not_adj@[tt] as int] as int));
                    } else {
                        assert(colors1[u] == color);
                        assert(!adj(edges@, u, v_is@[not_adj@[tt] as int] as int));
                    }
                }
            }
        }

        proof {
            assert(cls_target == (v_is@, v_colors@));
        }
        color = color + 1;
        proof {
            assert(wp_rounds(edges@, v_is@, v_colors@, color) == wp_spec(edges@));
        }
    }
    proof {
        assert forall|v: int| 0 <= v < n implies #[trigger] v_colors@[v] != usize::MAX by {
            if v_colors@[v] == usize::MAX {
                assert(v_is@.contains(v as usize));
            }
        }
        if n > 0 {
            assert(v_colors@[0] != usize::MAX);
        }
    }
    (v_colors, color)
}

} // verus!
