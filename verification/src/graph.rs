//! The dense adjacency representation and the degree utilities.

use vstd::prelude::*;

verus! {

/// Vertices `i` and `j` are adjacent in the matrix `g`.
pub open spec fn adj(g: Seq<Vec<bool>>, i: int, j: int) -> bool {
    g[i]@[j]
}

/// Every row of the matrix has as many entries as there are rows.
pub open spec fn g_square(g: Seq<Vec<bool>>) -> bool {
    forall|i: int| 0 <= i < g.len() ==> (#[trigger] g[i])@.len() == g.len()
}

/// The adjacency relation is symmetric.
pub open spec fn g_symmetric(g: Seq<Vec<bool>>) -> bool {
    forall|i: int, j: int|
        0 <= i < g.len() && 0 <= j < g.len() ==> #[trigger] adj(g, i, j) == adj(g, j, i)
}

/// No vertex is adjacent to itself.
pub open spec fn g_loopless(g: Seq<Vec<bool>>) -> bool {
    forall|i: int| 0 <= i < g.len() ==> !#[trigger] adj(g, i, i)
}

/// A well-formed graph: square, symmetric, without self-loops.
pub open spec fn g_well_formed(g: Seq<Vec<bool>>) -> bool {
    g_square(g) && g_symmetric(g) && g_loopless(g)
}

/// The graph has no edge at all.
pub open spec fn g_edgeless(g: Seq<Vec<bool>>) -> bool {
    forall|i: int, j: int| 0 <= i < g.len() && 0 <= j < g.len() ==> !#[trigger] adj(g, i, j)
}

/// How many of the first `k` entries of `row` are set.
pub open spec fn count_true_upto(row: Seq<bool>, k: int) -> int
    decreases k,
{
    if k <= 0 {
        0
    } else {
        count_true_upto(row, k - 1) + if row[k - 1] {
            1int
        } else {
            0int
        }
    }
}

/// The degree of a vertex: how many entries of its adjacency row are set.
pub open spec fn row_degree(row: Seq<bool>) -> int {
    count_true_upto(row, row.len() as int)
}

/// The per-vertex degrees of the graph.
pub fn degree_list(edges: &Vec<Vec<bool>>) -> (r: Vec<usize>)
    ensures
        r@.len() == edges@.len(),
        forall|v: int| 0 <= v < edges@.len() ==> #[trigger] r@[v] == row_degree(edges@[v]@),
{
    let n = edges.len();
    let mut r: Vec<usize> = Vec::new();
    let mut v: usize = 0;
    while v < n
        invariant
            v <= n,
            n == edges@.len(),
            r@.len() == v as int,
            forall|u: int| 0 <= u < v ==> #[trigger] r@[u] == row_degree(edges@[u]@),
        decreases n - v,
    {
        let row_len = edges[v].len();
        let mut count: usize = 0;
        let mut j: usize = 0;
        while j < row_len
            invariant
                j <= row_len,
                v < n,
                n == edges@.len(),
                row_len == edges@[v as int]@.len(),
                count <= j,
                count as int == count_true_upto(edges@[v as int]@, j as int),
            decreases row_len - j,
        {
            if edges[v][j] {
                count = count + 1;
            }
            j = j + 1;
        }
        r.push(count);
        v = v + 1;
    }
    r
}

/// The order on vertex indices used to sort: by degree, ties broken by the
/// index itself, so that the order is total and the sorted list unique.
pub open spec fn degree_key_lt(degrees: Seq<usize>, u: int, v: int) -> bool {
    degrees[u] < degrees[v] || (degrees[u] == degrees[v] && u < v)
}

/// Stable insertion of `v` into a list sorted ascending by degree: `v`
/// goes after every entry whose degree does not exceed its own.
pub open spec fn spec_insert_by_degree(r: Seq<usize>, degrees: Seq<usize>, v: usize) -> Seq<usize>
    decreases r.len(),
{
    if r.len() == 0 {
        seq![v]
    } else if degrees[r.last() as int] <= degrees[v as int] {
        r.push(v)
    } else {
        spec_insert_by_degree(r.drop_last(), degrees, v).push(r.last())
    }
}

/// The sorted arrangement of the vertex indices `0..k`, built by stable
/// insertion, so equal degrees stay in index order.
pub open spec fn spec_sorted_indices(degrees: Seq<usize>, k: int) -> Seq<usize>
    decreases k,
{
    if k <= 0 {
        Seq::empty()
    } else {
        spec_insert_by_degree(spec_sorted_indices(degrees, k - 1), degrees, (k - 1) as usize)
    }
}

/// Inserting at the first position whose entry has a larger degree is
/// exactly the stable insertion of the specification.
proof fn lemma_insert_position(r: Seq<usize>, degrees: Seq<usize>, v: usize, pos: int)
    requires
        0 <= pos <= r.len(),
        forall|k: int| 0 <= k < r.len() ==> 0 <= #[trigger] r[k] < degrees.len(),
        v < degrees.len(),
        forall|k: int| 0 <= k < pos ==> degrees[#[trigger] r[k] as int] <= degrees[v as int],
        forall|k: int| pos <= k < r.len() ==> degrees[#[trigger] r[k] as int] > degrees[v as int],
    ensures
        r.insert(pos, v) == spec_insert_by_degree(r, degrees, v),
    decreases r.len(),
{
    if r.len() == 0 {
        assert(r.insert(pos, v) =~= seq![v]);
    } else if pos == r.len() {
        assert(degrees[r.last() as int] <= degrees[v as int]);
        assert(r.insert(pos, v) =~= r.push(v));
    } else {
        assert(degrees[r.last() as int] > degrees[v as int]);
        lemma_insert_position(r.drop_last(), degrees, v, pos);
        assert(r.insert(pos, v) =~= r.drop_last().insert(pos, v).push(r.last()));
    }
}

/// All vertex indices, sorted ascending by degree, equal degrees in index
/// order. The result is the unique list that is a duplicate-free
/// arrangement of `0..n` strictly increasing under `degree_key_lt`, and
/// equals its specification, so the order the degree-driven heuristics
/// work from is a function of the graph alone.
pub fn sorted_index_list(edges: &Vec<Vec<bool>>, degrees: &Vec<usize>) -> (r: Vec<usize>)
    requires
        degrees@.len() == edges@.len(),
    ensures
        r@.len() == edges@.len(),
        forall|k: int| 0 <= k < r@.len() ==> (#[trigger] r@[k]) < edges@.len(),
        r@.no_duplicates(),
        forall|a: int, b: int|
            0 <= a < b < r@.len() ==> degree_key_lt(degrees@, r@[a] as int, r@[b] as int),
        forall|v: int| 0 <= v < edges@.len() ==> #[trigger] r@.contains(v as usize),
        r@ == spec_sorted_indices(degrees@, degrees@.len() as int),
{
    let n = edges.len();
    let mut r: Vec<usize> = Vec::new();
    let mut v: usize = 0;
    while v < n
        invariant
            v <= n,
            n == edges@.len(),
            degrees@.len() == n,
            r@.len() == v as int,
            forall|k: int| 0 <= k < r@.len() ==> (#[trigger] r@[k]) < v,
            r@.no_duplicates(),
            forall|a: int, b: int|
                0 <= a < b < r@.len() ==> degree_key_lt(degrees@, r@[a] as int, r@[b] as int),
            forall|u: int| 0 <= u < v ==> #[trigger] r@.contains(u as usize),
            r@ == spec_sorted_indices(degrees@, v as int),
        decreases n - v,
    {
        let dv = degrees[v];
        let mut pos: usize = 0;
        while pos < r.len() && degrees[r[pos]] <= dv
            invariant
                pos <= r@.len(),
                v < n,
                n == edges@.len(),
                degrees@.len() == n,
                dv == degrees@[v as int],
                r@.len() == v as int,
                forall|k: int| 0 <= k < r@.len() ==> (#[trigger] r@[k]) < v,
                r@.no_duplicates(),
                forall|a: int, b: int|
                    0 <= a < b < r@.len() ==> degree_key_lt(degrees@, r@[a] as int, r@[b] as int),
                forall|u: int| 0 <= u < v ==> #[trigger] r@.contains(u as usize),
                forall|k: int| 0 <= k < pos ==> degrees@[#[trigger] r@[k] as int] <= dv,
            decreases r@.len() - pos,
        {
            pos = pos + 1;
        }
        let ghost old_r = r@;
        r.insert(pos, v);
        proof {
            assert forall|a: int, b: int| 0 <= a < b < r@.len() implies degree_key_lt(
                degrees@,
                r@[a] as int,
                r@[b] as int,
            ) by {
                if b < pos {
                    assert(r@[a] == old_r[a] && r@[b] == old_r[b]);
                } else if a > pos {
                    assert(r@[a] == old_r[a - 1] && r@[b] == old_r[b - 1]);
                } else if a < pos && b > pos {
                    assert(r@[a] == old_r[a] && r@[b] == old_r[b - 1]);
                } else if b == pos {
                    // r@[b] is v; earlier entries have degree <= dv and index < v
                    assert(r@[a] == old_r[a]);
                    assert(degrees@[old_r[a] as int] <= dv);
                    assert(old_r[a] < v);
                } else {
                    // a == pos: r@[a] is v; later entries have degree > dv
                    assert(r@[b] == old_r[b - 1]);
                    assert(pos < old_r.len());
                    assert(degrees@[old_r[pos as int] as int] > dv);
                    if b - 1 > pos {
                        assert(degree_key_lt(degrees@, old_r[pos as int] as int, old_r[b - 1] as int));
                    }
                    assert(degrees@[old_r[b - 1] as int] > dv);
                }
            }
            assert(r@.no_duplicates()) by {
                assert forall|a: int, b: int|
                    0 <= a < r@.len() && 0 <= b < r@.len() && a != b implies r@[a] != r@[b] by {
                    if a != pos && b != pos {
                        let a0: int = if a < pos { a } else { a - 1 };
                        let b0: int = if b < pos { b } else { b - 1 };
                        assert(r@[a] == old_r[a0] && r@[b] == old_r[b0]);
                    } else if a == pos {
                        let b0: int = if b < pos { b } else { b - 1 };
                        assert(r@[b] == old_r[b0] && old_r[b0] < v);
                    } else {
                        let a0: int = if a < pos { a } else { a - 1 };
                        assert(r@[a] == old_r[a0] && old_r[a0] < v);
                    }
                }
            }
            assert forall|k: int| pos <= k < old_r.len() implies degrees@[#[trigger] old_r[k] as int]
                > dv by {
                if k > pos {
                    assert(degree_key_lt(degrees@, old_r[pos as int] as int, old_r[k] as int));
                }
            }
            lemma_insert_position(old_r, degrees@, v, pos as int);
            assert forall|u: int| 0 <= u < v + 1 implies #[trigger] r@.contains(u as usize) by {
                if u < v {
                    assert(old_r.contains(u as usize));
                    let k = choose|k: int| 0 <= k < old_r.len() && old_r[k] == u as usize;
                    if k < pos {
                        assert(r@[k] == u as usize);
                    } else {
                        assert(r@[k + 1] == u as usize);
                    }
                } else {
                    assert(r@[pos as int] == v);
                }
            }
        }
        v = v + 1;
    }
    r
}

} // verus!
