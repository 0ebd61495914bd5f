//! Recursive-Largest-First: build one color class per round as a greedy
//! independent set. The round's seed is the remaining vertex with the most
//! neighbors among the remaining ones; its class is extended from the
//! candidates not adjacent to it, preferring candidates with many
//! neighbors in the exclusion set, ties going to the later position.

use vstd::prelude::*;
use crate::graph::{adj, degree_list, g_edgeless, g_square, g_well_formed, sorted_index_list};
use crate::coloring::{
    all_colored, color_in_use, colors_lt, conflict_free, count_uncolored_upto,
    lemma_color_one_vertex, lemma_count_uncolored_bounds, lemma_count_uncolored_pointwise,
    lemma_count_uncolored_strict, lemma_pool_drop_last, lemma_pool_remove, valid_coloring,
};
use crate::welsh_powell::{candidates_fit_class, wp_compatible};
use crate::saturation::{best_pos_by, lemma_best_pos_in_range};
use crate::graph::spec_sorted_indices;
use crate::greedy::spec_degrees;

verus! {

broadcast use
    vstd::prelude::Seq::lemma_filter_len,
    vstd::prelude::Seq::lemma_filter_push,
    vstd::prelude::Seq::lemma_filter_pred,
;

/// How many of the first `x` entries of `members` are neighbors of `v`,
/// at specification level.
pub open spec fn count_adj_upto(g: Seq<Vec<bool>>, members: Seq<usize>, v: int, x: int) -> int
    decreases x,
{
    if x <= 0 {
        0
    } else {
        count_adj_upto(g, members, v, x - 1) + if adj(g, v, members[x - 1] as int) {
            1int
        } else {
            0int
        }
    }
}

/// The exclusion set of a round's seed, built by scanning the vertices in
/// order: every vertex adjacent to `s` among the first `j`.
pub open spec fn rlf_seed_adjs(g: Seq<Vec<bool>>, s: usize, j: int) -> Seq<usize>
    decreases j,
{
    if j <= 0 {
        Seq::empty()
    } else {
        let r = rlf_seed_adjs(g, s, j - 1);
        if adj(g, s as int, j - 1) {
            r.push((j - 1) as usize)
        } else {
            r
        }
    }
}

/// The candidate positions of a round: positions of the pool whose vertex
/// is not adjacent to the seed, scanned in order.
pub open spec fn rlf_candidates_upto(
    g: Seq<Vec<bool>>,
    pool: Seq<usize>,
    s: usize,
    k: int,
) -> Seq<usize>
    decreases k,
{
    if k <= 0 {
        Seq::empty()
    } else {
        let r = rlf_candidates_upto(g, pool, s, k - 1);
        if !adj(g, s as int, pool[k - 1] as int) {
            r.push((k - 1) as usize)
        } else {
            r
        }
    }
}

/// The exclusion set grown by the candidates adjacent to the vertex that
/// just joined the class, scanned in order.
pub open spec fn rlf_grow(
    g: Seq<Vec<bool>>,
    pool: Seq<usize>,
    iv: usize,
    cand: Seq<usize>,
    adjset: Seq<usize>,
    t: int,
) -> Seq<usize>
    decreases t,
{
    if t <= 0 {
        adjset
    } else {
        let r = rlf_grow(g, pool, iv, cand, adjset, t - 1);
        if adj(g, iv as int, pool[cand[t - 1] as int] as int) {
            r.push(pool[cand[t - 1] as int])
        } else {
            r
        }
    }
}

/// The selection keys of the candidates: how many members of the
/// exclusion set each one neighbors.
pub open spec fn rlf_cand_keys(
    g: Seq<Vec<bool>>,
    pool: Seq<usize>,
    adjset: Seq<usize>,
    cand: Seq<usize>,
) -> Seq<int> {
    Seq::new(
        cand.len(),
        |t: int| count_adj_upto(g, adjset, pool[cand[t] as int] as int, adjset.len() as int),
    )
}

/// The selection keys for the next seed: how many remaining vertices
/// each remaining vertex neighbors.
pub open spec fn rlf_seed_keys(g: Seq<Vec<bool>>, pool: Seq<usize>) -> Seq<int> {
    Seq::new(pool.len(), |t: int| count_adj_upto(g, pool, pool[t] as int, pool.len() as int))
}

/// The uncolored members of the pool, in order.
pub open spec fn rlf_uncolored(colors: Seq<usize>, pool: Seq<usize>) -> Seq<usize> {
    pool.filter(|v: usize| colors[v as int] == usize::MAX)
}

/// One class of a Recursive-Largest-First round: repeatedly pick the
/// candidate with the most neighbors in the exclusion set (a later
/// position winning ties), move the candidates adjacent to it into the
/// exclusion set, and color it. Returns the exclusion set and coloring.
pub open spec fn rlf_class(
    g: Seq<Vec<bool>>,
    pool: Seq<usize>,
    adjset: Seq<usize>,
    cand: Seq<usize>,
    colors: Seq<usize>,
    c: usize,
) -> (Seq<usize>, Seq<usize>)
    decreases cand.len(),
{
    if cand.len() == 0 {
        (adjset, colors)
    } else {
        let t0 = best_pos_by(rlf_cand_keys(g, pool, adjset, cand), cand.len() as int);
        let t = if 0 <= t0 < cand.len() {
            t0
        } else {
            0
        };
        let p = cand[t];
        if (p as int) < pool.len() && (pool[p as int] as int) < colors.len() {
            let iv = pool[p as int];
            let rest = cand.remove(t);
            let kept = wp_compatible(g, pool, iv, rest);
            let adjset2 = rlf_grow(g, pool, iv, rest, adjset, rest.len() as int).push(iv);
            let colors2 = colors.update(iv as int, c);
            rlf_class(g, pool, adjset2, kept, colors2, c)
        } else {
            (adjset, colors)
        }
    }
}

proof fn lemma_rlf_class_pointwise(
    g: Seq<Vec<bool>>,
    pool: Seq<usize>,
    adjset: Seq<usize>,
    cand: Seq<usize>,
    colors: Seq<usize>,
    c: usize,
)
    requires
        c != usize::MAX,
    ensures
        rlf_class(g, pool, adjset, cand, colors, c).1.len() == colors.len(),
        forall|v: int|
            0 <= v < colors.len() && #[trigger] rlf_class(g, pool, adjset, cand, colors, c).1[v]
                == usize::MAX ==> colors[v] == usize::MAX,
    decreases cand.len(),
{
    if cand.len() != 0 {
        let t0 = best_pos_by(rlf_cand_keys(g, pool, adjset, cand), cand.len() as int);
        let t = if 0 <= t0 < cand.len() {
            t0
        } else {
            0
        };
        let p = cand[t];
        if (p as int) < pool.len() && (pool[p as int] as int) < colors.len() {
            let iv = pool[p as int];
            let rest = cand.remove(t);
            let kept = wp_compatible(g, pool, iv, rest);
            let adjset2 = rlf_grow(g, pool, iv, rest, adjset, rest.len() as int).push(iv);
            let colors2 = colors.update(iv as int, c);
            lemma_rlf_class_pointwise(g, pool, adjset2, kept, colors2, c);
        }
    }
}

/// The rest of a Recursive-Largest-First run: each round builds one
/// class around the pending seed, colors the seed, drops the colored
/// vertices from the pool, and picks the next seed as the remaining
/// vertex with the most remaining neighbors.
pub open spec fn rlf_rounds(
    g: Seq<Vec<bool>>,
    pool: Seq<usize>,
    colors: Seq<usize>,
    c: usize,
    s: usize,
) -> (Seq<usize>, int)
    decreases 2 * count_uncolored_upto(colors, colors.len() as int) + (if colors[s as int]
        != usize::MAX {
        1int
    } else {
        0int
    })
    via rlf_rounds_decreases
{
    if (s as int) >= colors.len() {
        // a seed outside the coloring never arises in a real run
        (colors, c as int)
    } else {
        let cw = if c < usize::MAX {
            c
        } else {
            0usize
        };
        let cand = rlf_candidates_upto(g, pool, s, pool.len() as int);
        let cls = rlf_class(g, pool, rlf_seed_adjs(g, s, g.len() as int), cand, colors, cw);
        let colors3 = cls.1.update(s as int, cw);
        let pool2 = rlf_uncolored(colors3, pool);
        let c2 = (c + 1) as usize;
        if pool2.len() == 0 {
            (colors3, c2 as int)
        } else {
            let t0 = best_pos_by(rlf_seed_keys(g, pool2), pool2.len() as int);
            let t = if 0 <= t0 < pool2.len() {
                t0
            } else {
                0
            };
            rlf_rounds(g, pool2, colors3, c2, pool2[t])
        }
    }
}

#[via_fn]
proof fn rlf_rounds_decreases(
    g: Seq<Vec<bool>>,
    pool: Seq<usize>,
    colors: Seq<usize>,
    c: usize,
    s: usize,
) {
    if (s as int) < colors.len() {
        let cw = if c < usize::MAX {
            c
        } else {
            0usize
        };
        let cand = rlf_candidates_upto(g, pool, s, pool.len() as int);
        let cls = rlf_class(g, pool, rlf_seed_adjs(g, s, g.len() as int), cand, colors, cw);
        let colors3 = cls.1.update(s as int, cw);
        let pool2 = rlf_uncolored(colors3, pool);
        if pool2.len() != 0 {
            let t0 = best_pos_by(rlf_seed_keys(g, pool2), pool2.len() as int);
            let t = if 0 <= t0 < pool2.len() {
                t0
            } else {
                0
            };
            let s2 = pool2[t];
            lemma_rlf_class_pointwise(
                g,
                pool,
                rlf_seed_adjs(g, s, g.len() as int),
                cand,
                colors,
                cw,
            );
            assert(colors3.len() == colors.len());
            lemma_count_uncolored_bounds(colors, colors.len() as int);
            lemma_count_uncolored_bounds(colors3, colors3.len() as int);
            // the next seed is an uncolored member of the new pool
            assert(colors3[s2 as int] == usize::MAX);
            assert(colors3[s as int] != usize::MAX);
            if colors[s as int] == usize::MAX {
                lemma_count_uncolored_strict(colors, colors3, colors.len() as int, s as int);
            } else {
                lemma_count_uncolored_pointwise(colors, colors3, colors.len() as int);
            }
        }
    }
}

/// What Recursive-Largest-First returns: a function of the graph alone,
/// so the heuristic is deterministic.
pub open spec fn rlf_spec(g: Seq<Vec<bool>>) -> (Seq<usize>, int) {
    if g.len() == 0 {
        (Seq::empty(), 0int)
    } else {
        let order = spec_sorted_indices(spec_degrees(g), g.len() as int);
        let seed = order.last();
        rlf_rounds(
            g,
            order.drop_last(),
            Seq::new(g.len(), |v: int| usize::MAX).update(seed as int, 0usize),
            0usize,
            seed,
        )
    }
}

/// The termination measure of the round loop: twice the number of
/// uncolored vertices, plus one while the pending seed is already colored.
/// Only the very first seed is colored before its round; every later
/// round colors its seed and so strictly shrinks the uncolored count.
pub open spec fn rounds_measure(colors: Seq<usize>, n: int, seed_opt: Option<usize>) -> int {
    2 * count_uncolored_upto(colors, n) + match seed_opt {
        Some(s) => if colors[s as int] != usize::MAX {
            1int
        } else {
            0int
        },
        None => 0int,
    }
}

/// How many entries of `members` are neighbors of `v`. This is the
/// selection key both inside a round (`members` is the exclusion set) and
/// for the next seed (`members` is the remaining pool); it only steers
/// which vertex is chosen, never whether the coloring is proper.
fn count_neighbors_in(edges: &Vec<Vec<bool>>, members: &Vec<usize>, v: usize) -> (r: usize)
    requires
        g_square(edges@),
        v < edges@.len(),
        forall|x: int| 0 <= x < members@.len() ==> (#[trigger] members@[x]) < edges@.len(),
    ensures
        r as int == count_adj_upto(edges@, members@, v as int, members@.len() as int),
{
    let mut cnt: usize = 0;
    let mut x: usize = 0;
    while x < members.len()
        invariant
            x <= members@.len(),
            cnt <= x,
            g_square(edges@),
            v < edges@.len(),
            forall|y: int| 0 <= y < members@.len() ==> (#[trigger] members@[y]) < edges@.len(),
            cnt as int == count_adj_upto(edges@, members@, v as int, x as int),
        decreases members@.len() - x,
    {
        if edges[v][members[x]] {
            cnt = cnt + 1;
        }
        x = x + 1;
    }
    cnt
}

pub fn recursive_largest_first(edges: &Vec<Vec<bool>>) -> (r: (Vec<usize>, usize))
    requires
        g_well_formed(edges@),
    ensures
        valid_coloring(edges@, r.0@),
        colors_lt(r.0@, r.1 as int),
        r.1 <= edges@.len(),
        edges@.len() == 0 ==> r.1 == 0,
        edges@.len() > 0 ==> r.1 >= 1,
        edges@.len() > 0 && g_edgeless(edges@) ==> r.1 == 1,
        r.0@ == rlf_spec(edges@).0,
        r.1 as int == rlf_spec(edges@).1,
{
    let n = edges.len();
    if n == 0 {
        let empty: Vec<usize> = Vec::new();
        proof {
            assert(empty@ =~= Seq::<usize>::empty());
        }
        return (empty, 0);
    }
    let mut color: usize = 0;
    let mut v_colors: Vec<usize> = vec![usize::MAX; n];
    let degrees = degree_list(edges);
    let mut v_is = sorted_index_list(edges, &degrees);

    let ghost pool0 = v_is@;
    let seed0 = match v_is.pop() {
        Some(x) => x,
        None => 0,
    };
    proof {
        lemma_pool_drop_last(pool0);
    }
    let ghost before_seed = v_colors@;
    v_colors[seed0] = 0;
    proof {
        if color_in_use(edges@, before_seed, seed0 as int, 0) {
            let jj = choose|jj: int|
                0 <= jj < edges@.len() && #[trigger] adj(edges@, seed0 as int, jj)
                    && before_seed[jj] == 0usize;
            assert(false);
        }
        lemma_color_one_vertex(edges@, before_seed, seed0 as int, 0);
        assert(pool0 == spec_sorted_indices(spec_degrees(edges@), edges@.len() as int)) by {
            assert(degrees@ =~= spec_degrees(edges@));
        }
        assert(seed0 == pool0.last());
        assert(before_seed =~= Seq::new(edges@.len(), |v: int| usize::MAX));
        assert(v_colors@ == before_seed.update(seed0 as int, 0usize));
        assert(rlf_rounds(edges@, v_is@, v_colors@, 0usize, seed0) == rlf_spec(edges@));
    }
    let mut seed_opt: Option<usize> = Some(seed0);

    while seed_opt.is_some()
        invariant
            n == edges@.len(),
            n > 0,
            g_well_formed(edges@),
            v_colors@.len() == n,
            v_is@.no_duplicates(),
            forall|k: int| 0 <= k < v_is@.len() ==> (#[trigger] v_is@[k]) < n,
            forall|k: int| 0 <= k < v_is@.len() ==> v_colors@[#[trigger] v_is@[k] as int]
                == usize::MAX,
            forall|v: int|
                0 <= v < n && #[trigger] v_colors@[v] == usize::MAX ==> v_is@.contains(v as usize),
            conflict_free(edges@, v_colors@),
            color + v_is@.len() <= n,
            seed_opt is None ==> colors_lt(v_colors@, color as int) && v_is@.len() == 0,
            seed_opt matches Some(s) ==> ({
                &&& s < n
                &&& (v_colors@[s as int] == usize::MAX ==> v_is@.contains(s) && colors_lt(
                    v_colors@,
                    color as int,
                ))
                &&& (v_colors@[s as int] != usize::MAX ==> ({
                    &&& v_colors@[s as int] == color
                    &&& colors_lt(v_colors@, color as int + 1)
                    &&& forall|u: int| 0 <= u < n && #[trigger] v_colors@[u] == color ==> u == s as int
                    &&& color + v_is@.len() + 1 <= n
                }))
            }),
            g_edgeless(edges@) ==> ((seed_opt is Some && color == 0) || (seed_opt is None && color
                == 1)),
            seed_opt matches Some(s2) ==> rlf_rounds(edges@, v_is@, v_colors@, color, s2)
                == rlf_spec(edges@),
            seed_opt is None ==> (v_colors@, color as int) == rlf_spec(edges@),
        decreases rounds_measure(v_colors@, n as int, seed_opt),
    {
        let s = match seed_opt {
            Some(x) => x,
            None => 0,
        };
        let ghost colors_start = v_colors@;
        let ghost round_pool = v_is@;
        let ghost seed_was_colored = colors_start[s as int] != usize::MAX;

        // the exclusion set: every vertex adjacent to the seed
        let mut adj_set: Vec<usize> = Vec::new();
        let mut j: usize = 0;
        while j < n
            invariant
                j <= n,
                n == edges@.len(),
                g_square(edges@),
                s < n,
                forall|x: int| 0 <= x < adj_set@.len() ==> (#[trigger] adj_set@[x]) < n,
                adj_set@ == rlf_seed_adjs(edges@, s, j as int),
            decreases n - j,
        {
            if edges[s][j] {
                adj_set.push(j);
            }
            j = j + 1;
        }

        // the candidates: positions in the pool whose vertex is not
        // adjacent to the seed
        let mut not_adj: Vec<usize> = Vec::new();
        let mut k: usize = 0;
        while k < v_is.len()
            invariant
                k <= v_is@.len(),
                n == edges@.len(),
                g_well_formed(edges@),
                s < n,
                v_colors@.len() == n,
                forall|t: int| 0 <= t < v_is@.len() ==> (#[trigger] v_is@[t]) < n,
                forall|a: int, b: int| 0 <= a < b < not_adj@.len() ==> not_adj@[a] < not_adj@[b],
                forall|t: int| 0 <= t < not_adj@.len() ==> (#[trigger] not_adj@[t]) < k,
                forall|t: int|
                    0 <= t < not_adj@.len() ==> !adj(
                        edges@,
                        s as int,
                        v_is@[#[trigger] not_adj@[t] as int] as int,
                    ),
                g_edgeless(edges@) ==> not_adj@.len() == k && (forall|x: int|
                    0 <= x < k ==> #[trigger] not_adj@[x] == x as usize),
                not_adj@ == rlf_candidates_upto(edges@, v_is@, s, k as int),
            decreases v_is@.len() - k,
        {
            if !edges[s][v_is[k]] {
                not_adj.push(k);
            } else {
                proof {
                    if g_edgeless(edges@) {
                        assert(adj(edges@, s as int, v_is@[k as int] as int));
                        assert(!adj(edges@, s as int, v_is@[k as int] as int));
                    }
                }
            }
            k = k + 1;
        }
        proof {
            // the candidates fit the class as it stands: at most the seed
            // is in it so far
            assert forall|t: int, u: int|
                0 <= t < not_adj@.len() && 0 <= u < n && v_colors@[u] == color implies !#[trigger] adj(
                edges@,
                u,
                v_is@[not_adj@[t] as int] as int,
            ) by {
                assert(u == s as int);
            }
            if g_edgeless(edges@) {
                assert forall|t0: int|
                    0 <= t0 < v_is@.len() && v_colors@[#[trigger] v_is@[t0] as int]
                        == usize::MAX implies not_adj@.contains(t0 as usize) by {
                    assert(not_adj@[t0] == t0 as usize);
                }
            }
        }

        let ghost cls_target = rlf_class(edges@, v_is@, adj_set@, not_adj@, v_colors@, color);
        proof {
            assert(color < usize::MAX) by {
                if seed_was_colored {
                    assert(color + v_is@.len() + 1 <= n);
                } else {
                    assert(v_is@.contains(s));
                }
            }
            assert(rlf_rounds(edges@, round_pool, colors_start, color, s) == ({
                let cls = cls_target;
                let colors3 = cls.1.update(s as int, color);
                let pool2 = rlf_uncolored(colors3, round_pool);
                if pool2.len() == 0 {
                    (colors3, color + 1)
                } else {
                    let t0 = best_pos_by(rlf_seed_keys(edges@, pool2), pool2.len() as int);
                    let t = if 0 <= t0 < pool2.len() {
                        t0
                    } else {
                        0int
                    };
                    rlf_rounds(edges@, pool2, colors3, (color + 1) as usize, pool2[t])
                }
            }));
        }

        while not_adj.len() > 0
            invariant
                color < usize::MAX,
                rlf_class(edges@, v_is@, adj_set@, not_adj@, v_colors@, color) == cls_target,
                n == edges@.len(),
                n > 0,
                g_well_formed(edges@),
                s < n,
                v_colors@.len() == n,
                v_is@ == round_pool,
                v_is@.no_duplicates(),
                forall|k2: int| 0 <= k2 < v_is@.len() ==> (#[trigger] v_is@[k2]) < n,
                forall|v: int|
                    0 <= v < n && #[trigger] v_colors@[v] == usize::MAX ==> v_is@.contains(
                        v as usize,
                    ),
                conflict_free(edges@, v_colors@),
                colors_lt(v_colors@, color as int + 1),
                color + v_is@.len() <= n,
                seed_was_colored ==> color + v_is@.len() + 1 <= n,
                colors_start.len() == n,
                forall|v: int|
                    0 <= v < n && #[trigger] v_colors@[v] == usize::MAX ==> colors_start[v]
                        == usize::MAX,
                forall|x: int| 0 <= x < adj_set@.len() ==> (#[trigger] adj_set@[x]) < n,
                forall|a: int, b: int| 0 <= a < b < not_adj@.len() ==> not_adj@[a] < not_adj@[b],
                forall|t: int| 0 <= t < not_adj@.len() ==> (#[trigger] not_adj@[t])
                    < v_is@.len(),
                forall|t: int|
                    0 <= t < not_adj@.len() ==> v_colors@[v_is@[#[trigger] not_adj@[t] as int] as int]
                        == usize::MAX,
                forall|t: int|
                    0 <= t < not_adj@.len() ==> !adj(
                        edges@,
                        s as int,
                        v_is@[#[trigger] not_adj@[t] as int] as int,
                    ),
                candidates_fit_class(edges@, v_colors@, v_is@, not_adj@, color),
                forall|u: int|
                    0 <= u < n && #[trigger] v_colors@[u] == color ==> u == s as int || !adj(
                        edges@,
                        s as int,
                        u,
                    ),
                g_edgeless(edges@) ==> (forall|t0: int|
                    0 <= t0 < v_is@.len() && v_colors@[#[trigger] v_is@[t0] as int] == usize::MAX
                        ==> not_adj@.contains(t0 as usize)),
            decreases not_adj@.len(),
        {
            // pick the candidate with the most neighbors in the exclusion
            // set, a later position winning ties
            let mut best_t: usize = 0;
            let mut best_cnt: usize = count_neighbors_in(edges, &adj_set, v_is[not_adj[0]]);
            let mut t: usize = 1;
            while t < not_adj.len()
                invariant
                    1 <= t <= not_adj@.len(),
                    best_t < t,
                    n == edges@.len(),
                    g_square(edges@),
                    forall|k2: int| 0 <= k2 < v_is@.len() ==> (#[trigger] v_is@[k2]) < n,
                    forall|t2: int| 0 <= t2 < not_adj@.len() ==> (#[trigger] not_adj@[t2])
                        < v_is@.len(),
                    forall|x: int| 0 <= x < adj_set@.len() ==> (#[trigger] adj_set@[x]) < n,
                    best_t as int == best_pos_by(
                        rlf_cand_keys(edges@, v_is@, adj_set@, not_adj@),
                        t as int,
                    ),
                    best_cnt as int == rlf_cand_keys(edges@, v_is@, adj_set@, not_adj@)[best_t as int],
                decreases not_adj@.len() - t,
            {
                let cnt = count_neighbors_in(edges, &adj_set, v_is[not_adj[t]]);
                if cnt >= best_cnt {
                    best_t = t;
                    best_cnt = cnt;
                }
                t = t + 1;
            }

            let ghost prev_na = not_adj@;
            let p = not_adj.remove(best_t);
            proof {
                lemma_best_pos_in_range(
                    rlf_cand_keys(edges@, v_is@, adj_set@, prev_na),
                    prev_na.len() as int,
                );
                assert(p == prev_na[best_t as int]);
                assert(prev_na.no_duplicates()) by {
                    assert forall|a: int, b: int|
                        0 <= a < prev_na.len() && 0 <= b < prev_na.len() && a != b implies prev_na[a]
                        != prev_na[b] by {
                        if a < b {
                            assert(prev_na[a] < prev_na[b]);
                        } else {
                            assert(prev_na[b] < prev_na[a]);
                        }
                    }
                }
                lemma_pool_remove(prev_na, best_t as int);
            }
            let i_v = v_is[p];

            // move the candidates adjacent to the picked vertex into the
            // exclusion set, keep the rest
            let ghost na2 = not_adj@;
            let ghost adjset_b = adj_set@;
            let mut kept: Vec<usize> = Vec::new();
            let mut t2: usize = 0;
            while t2 < not_adj.len()
                invariant
                    kept@ == wp_compatible(edges@, v_is@, i_v, not_adj@.subrange(0, t2 as int)),
                    adj_set@ == rlf_grow(edges@, v_is@, i_v, not_adj@, adjset_b, t2 as int),
                    t2 <= not_adj@.len(),
                    n == edges@.len(),
                    g_well_formed(edges@),
                    s < n,
                    i_v < n,
                    v_colors@.len() == n,
                    forall|k2: int| 0 <= k2 < v_is@.len() ==> (#[trigger] v_is@[k2]) < n,
                    forall|a: int, b: int| 0 <= a < b < not_adj@.len() ==> not_adj@[a]
                        < not_adj@[b],
                    forall|t3: int| 0 <= t3 < not_adj@.len() ==> (#[trigger] not_adj@[t3])
                        < v_is@.len(),
                    forall|x: int| 0 <= x < adj_set@.len() ==> (#[trigger] adj_set@[x]) < n,
                    kept@.len() <= t2,
                    forall|a: int, b: int| 0 <= a < b < kept@.len() ==> kept@[a] < kept@[b],
                    forall|x: int| 0 <= x < kept@.len() ==> (#[trigger] kept@[x]) < v_is@.len(),
                    forall|x: int|
                        0 <= x < kept@.len() ==> exists|x0: int|
                            0 <= x0 < t2 && #[trigger] kept@[x] == not_adj@[x0],
                    forall|x: int|
                        0 <= x < kept@.len() ==> !adj(
                            edges@,
                            i_v as int,
                            v_is@[#[trigger] kept@[x] as int] as int,
                        ),
                    g_edgeless(edges@) ==> kept@ == not_adj@.subrange(0, t2 as int),
                decreases not_adj@.len() - t2,
            {
                let q = not_adj[t2];
                proof {
                    assert(not_adj@.subrange(0, t2 as int + 1) =~= not_adj@.subrange(
                        0,
                        t2 as int,
                    ).push(q));
                }
                if edges[i_v][v_is[q]] {
                    proof {
                        if g_edgeless(edges@) {
                            assert(adj(edges@, i_v as int, v_is@[q as int] as int));
                            assert(!adj(edges@, i_v as int, v_is@[q as int] as int));
                        }
                    }
                    adj_set.push(v_is[q]);
                } else {
                    proof {
                        if kept@.len() > 0 {
                            let x0 = choose|x0: int|
                                0 <= x0 < t2 && kept@[kept@.len() - 1] == not_adj@[x0];
                            assert(not_adj@[x0] < not_adj@[t2 as int]);
                        }
                    }
                    kept.push(q);
                    proof {
                        if g_edgeless(edges@) {
                            assert(kept@ =~= not_adj@.subrange(0, t2 as int + 1));
                        }
                    }
                }
                t2 = t2 + 1;
            }
            proof {
                // what was kept came from the candidate list without its
                // picked entry, so it never names the picked vertex
                assert forall|x: int| 0 <= x < kept@.len() implies kept@[x] != p by {
                    let x0 = choose|x0: int| 0 <= x0 < t2 && kept@[x] == not_adj@[x0];
                    assert(not_adj@ == prev_na.remove(best_t as int));
                    assert(prev_na.remove(best_t as int).contains(not_adj@[x0]));
                    assert(not_adj@[x0] != prev_na[best_t as int]);
                }
            }
            not_adj = kept;
            adj_set.push(i_v);

            let ghost colors_b = v_colors@;
            v_colors[i_v] = color;
            proof {
                assert(na2.subrange(0, na2.len() as int) =~= na2);
                assert(not_adj@ == wp_compatible(edges@, v_is@, i_v, na2));
                assert(adj_set@ == rlf_grow(edges@, v_is@, i_v, na2, adjset_b, na2.len() as int).push(
                    i_v,
                ));
                assert(rlf_class(edges@, v_is@, adjset_b, prev_na, colors_b, color) == rlf_class(
                    edges@,
                    v_is@,
                    adj_set@,
                    not_adj@,
                    v_colors@,
                    color,
                ));
                assert(color < usize::MAX);
                if color_in_use(edges@, colors_b, i_v as int, color) {
                    let u = choose|u: int|
                        0 <= u < edges@.len() && #[trigger] adj(edges@, i_v as int, u) && colors_b[u]
                            == color;
                    assert(!adj(edges@, u, v_is@[prev_na[best_t as int] as int] as int));
                    assert(adj(edges@, u, i_v as int));
                    assert(false);
                }
                lemma_color_one_vertex(edges@, colors_b, i_v as int, color);
                // the kept candidates still name uncolored vertices
                assert forall|t3: int|
                    0 <= t3 < not_adj@.len() implies v_colors@[v_is@[#[trigger] not_adj@[t3] as int] as int]
                    == usize::MAX by {
                    assert(not_adj@[t3] != p);
                    assert(v_is@[not_adj@[t3] as int] != v_is@[p as int]);
                }
                // and they fit the class grown by the picked vertex
                assert forall|t3: int, u: int|
                    0 <= t3 < not_adj@.len() && 0 <= u < n && v_colors@[u] == color implies !#[trigger] adj(
                    edges@,
                    u,
                    v_is@[not_adj@[t3] as int] as int,
                ) by {
                    if u == i_v as int {
                        assert(!adj(edges@, i_v as int, v_is@[not_adj@[t3] as int] as int));
                    } else {
                        assert(colors_b[u] == color);
                        assert(na2.contains(not_adj@[t3]));
                        let x0 = choose|x0: int| 0 <= x0 < na2.len() && not_adj@[t3] == na2[x0];
                        assert(prev_na.contains(na2[x0]));
                        let y0 = choose|y0: int| 0 <= y0 < prev_na.len() && na2[x0] == prev_na[y0];
                        assert(!adj(edges@, u, v_is@[prev_na[y0] as int] as int));
                    }
                }
                // the grown class still avoids the seed's neighborhood
                assert forall|u: int|
                    0 <= u < n && #[trigger] v_colors@[u] == color implies u == s as int || !adj(
                    edges@,
                    s as int,
                    u,
                ) by {
                    if u == i_v as int {
                        assert(!adj(edges@, s as int, v_is@[prev_na[best_t as int] as int] as int));
                    }
                }
                // uncolored vertices still sit in the pool
                assert forall|v: int|
                    0 <= v < n && #[trigger] v_colors@[v] == usize::MAX implies v_is@.contains(
                    v as usize,
                ) by {
                    assert(colors_b[v] == usize::MAX);
                }
                if g_edgeless(edges@) {
                    assert forall|t0: int|
                        0 <= t0 < v_is@.len() && v_colors@[#[trigger] v_is@[t0] as int]
                            == usize::MAX implies not_adj@.contains(t0 as usize) by {
                        assert(colors_b[v_is@[t0] as int] == usize::MAX);
                        assert(prev_na.contains(t0 as usize));
                        assert(v_is@[t0] != v_is@[p as int]);
                        assert(t0 as usize != p);
                        assert(na2.contains(t0 as usize));
                        assert(not_adj@ == na2.subrange(0, na2.len() as int));
                        assert(not_adj@ =~= na2);
                    }
                }
            }
        }

        proof {
            assert(cls_target == (adj_set@, v_colors@));
        }
        let ghost round_color = color;

        // the seed joins its class
        let ghost colors_c = v_colors@;
        v_colors[s] = color;
        proof {
            assert(color < usize::MAX);
            if color_in_use(edges@, colors_c, s as int, color) {
                let u = choose|u: int|
                    0 <= u < edges@.len() && #[trigger] adj(edges@, s as int, u) && colors_c[u]
                        == color;
                assert(u == s as int || !adj(edges@, s as int, u));
                assert(!adj(edges@, s as int, s as int));
                assert(false);
            }
            lemma_color_one_vertex(edges@, colors_c, s as int, color);
            assert forall|v: int|
                0 <= v < n && #[trigger] v_colors@[v] == usize::MAX implies v_is@.contains(
                v as usize,
            ) by {
                assert(colors_c[v] == usize::MAX);
            }
            if g_edgeless(edges@) {
                assert forall|t0: int|
                    0 <= t0 < v_is@.len() implies v_colors@[#[trigger] v_is@[t0] as int]
                    != usize::MAX by {
                    if v_colors@[v_is@[t0] as int] == usize::MAX {
                        assert(colors_c[v_is@[t0] as int] == usize::MAX);
                        assert(not_adj@.contains(t0 as usize));
                        assert(false);
                    }
                }
            }
        }

        // drop the vertices colored this round from the pool
        let ghost prev_pool = v_is@;
        let mut kept_pool: Vec<usize> = Vec::new();
        let mut t4: usize = 0;
        while t4 < v_is.len()
            invariant
                kept_pool@ == rlf_uncolored(v_colors@, v_is@.subrange(0, t4 as int)),
                t4 <= v_is@.len(),
                n == edges@.len(),
                v_colors@.len() == n,
                v_is@.no_duplicates(),
                forall|k2: int| 0 <= k2 < v_is@.len() ==> (#[trigger] v_is@[k2]) < n,
                forall|x: int| 0 <= x < kept_pool@.len() ==> (#[trigger] kept_pool@[x]) < n,
                forall|x: int|
                    0 <= x < kept_pool@.len() ==> v_colors@[#[trigger] kept_pool@[x] as int]
                        == usize::MAX,
                forall|x: int|
                    0 <= x < kept_pool@.len() ==> exists|x0: int|
                        0 <= x0 < t4 && #[trigger] kept_pool@[x] == v_is@[x0],
                kept_pool@.no_duplicates(),
                forall|x0: int|
                    0 <= x0 < t4 && v_colors@[#[trigger] v_is@[x0] as int] == usize::MAX
                        ==> kept_pool@.contains(v_is@[x0]),
                kept_pool@.len() <= t4,
                (exists|x0: int|
                    0 <= x0 < t4 && v_colors@[#[trigger] v_is@[x0] as int] != usize::MAX)
                    ==> kept_pool@.len() < t4,
                g_edgeless(edges@) ==> kept_pool@.len() == 0,
                g_edgeless(edges@) ==> (forall|t0: int|
                    0 <= t0 < v_is@.len() ==> v_colors@[#[trigger] v_is@[t0] as int]
                        != usize::MAX),
            decreases v_is@.len() - t4,
        {
            let x = v_is[t4];
            proof {
                assert(v_is@.subrange(0, t4 as int + 1) =~= v_is@.subrange(0, t4 as int).push(x));
            }
            if v_colors[x] == usize::MAX {
                proof {
                    assert forall|a: int| 0 <= a < kept_pool@.len() implies kept_pool@[a]
                        != v_is@[t4 as int] by {
                        let a0 = choose|a0: int| 0 <= a0 < t4 && kept_pool@[a] == v_is@[a0];
                    }
                }
                let ghost pk = kept_pool@;
                kept_pool.push(x);
                proof {
                    assert forall|x0: int|
                        0 <= x0 < t4 + 1 && v_colors@[#[trigger] v_is@[x0] as int]
                            == usize::MAX implies kept_pool@.contains(v_is@[x0]) by {
                        if x0 < t4 {
                            assert(pk.contains(v_is@[x0]));
                            let i0 = choose|i0: int| 0 <= i0 < pk.len() && pk[i0] == v_is@[x0];
                            assert(kept_pool@[i0] == v_is@[x0]);
                        } else {
                            assert(kept_pool@[pk.len() as int] == v_is@[x0]);
                        }
                    }
                }
            }
            t4 = t4 + 1;
        }
        v_is = kept_pool;
        proof {
            assert(prev_pool.subrange(0, prev_pool.len() as int) =~= prev_pool);
            assert(v_is@ == rlf_uncolored(v_colors@, prev_pool));
            assert(prev_pool == round_pool);
            assert forall|v: int|
                0 <= v < n && #[trigger] v_colors@[v] == usize::MAX implies v_is@.contains(
                v as usize,
            ) by {
                assert(prev_pool.contains(v as usize));
                let x0 = choose|x0: int| 0 <= x0 < prev_pool.len() && prev_pool[x0] == v as usize;
            }
            if !seed_was_colored {
                // the seed sat in the pool and is colored now, so the pool
                // strictly shrank
                assert(prev_pool.contains(s));
                let x0 = choose|x0: int| 0 <= x0 < prev_pool.len() && prev_pool[x0] == s;
                assert(v_colors@[prev_pool[x0] as int] != usize::MAX);
                assert(v_is@.len() < prev_pool.len());
            }
        }

        proof {
            assert(color < usize::MAX);
        }
        color = color + 1;

        // the next seed: the remaining vertex with the most remaining
        // neighbors, a later position winning ties
        let next_seed: Option<usize>;
        if v_is.len() == 0 {
            next_seed = None;
        } else {
            let mut best_t: usize = 0;
            let mut best_cnt: usize = count_neighbors_in(edges, &v_is, v_is[0]);
            let mut t5: usize = 1;
            while t5 < v_is.len()
                invariant
                    1 <= t5 <= v_is@.len(),
                    best_t < t5,
                    n == edges@.len(),
                    g_square(edges@),
                    forall|k2: int| 0 <= k2 < v_is@.len() ==> (#[trigger] v_is@[k2]) < n,
                    best_t as int == best_pos_by(rlf_seed_keys(edges@, v_is@), t5 as int),
                    best_cnt as int == rlf_seed_keys(edges@, v_is@)[best_t as int],
                decreases v_is@.len() - t5,
            {
                let cnt = count_neighbors_in(edges, &v_is, v_is[t5]);
                if cnt >= best_cnt {
                    best_t = t5;
                    best_cnt = cnt;
                }
                t5 = t5 + 1;
            }
            next_seed = Some(v_is[best_t]);
        }
        seed_opt = next_seed;

        proof {
            // the round played out exactly as its specification says
            let colors3 = colors_c.update(s as int, round_color);
            assert(v_colors@ == colors3);
            assert(v_is@ == rlf_uncolored(colors3, round_pool));
            assert(color as int == round_color + 1);
            assert(rlf_rounds(edges@, round_pool, colors_start, round_color, s) == rlf_spec(
                edges@,
            ));
            if v_is@.len() == 0 {
                assert(seed_opt is None);
                assert((v_colors@, color as int) == rlf_spec(edges@));
            } else {
                lemma_best_pos_in_range(rlf_seed_keys(edges@, v_is@), v_is@.len() as int);
                let t0 = best_pos_by(rlf_seed_keys(edges@, v_is@), v_is@.len() as int);
                assert(seed_opt == Some(v_is@[t0]));
                assert(rlf_rounds(edges@, v_is@, v_colors@, color, v_is@[t0]) == rlf_spec(
                    edges@,
                ));
            }
        }

        proof {
            lemma_count_uncolored_bounds(colors_start, n as int);
            lemma_count_uncolored_bounds(v_colors@, n as int);
            if seed_was_colored {
                lemma_count_uncolored_pointwise(colors_start, v_colors@, n as int);
            } else {
                lemma_count_uncolored_strict(colors_start, v_colors@, n as int, s as int);
            }
        }
    }
    proof {
        assert forall|v: int| 0 <= v < n implies #[trigger] v_colors@[v] != usize::MAX by {
            if v_colors@[v] == usize::MAX {
                assert(v_is@.contains(v as usize));
            }
        }
        assert(v_colors@[0] != usize::MAX);
    }
    (v_colors, color)
}

} // verus!
