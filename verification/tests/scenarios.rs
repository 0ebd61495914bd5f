use graph_coloring::coloring::check_colors;
use graph_coloring::greedy::{first_fit, largest_degree_ordering};
use graph_coloring::rlf::recursive_largest_first;
use graph_coloring::saturation::{degree_of_saturation, incidence_degree_ordering};
use graph_coloring::welsh_powell::welsh_powell;

type Heuristic = fn(&Vec<Vec<bool>>) -> (Vec<usize>, usize);

const HEURISTICS: [Heuristic; 6] = [
    first_fit,
    welsh_powell,
    largest_degree_ordering,
    incidence_degree_ordering,
    degree_of_saturation,
    recursive_largest_first,
];

fn graph(n: usize, edge_list: &[(usize, usize)]) -> Vec<Vec<bool>> {
    let mut m = vec![vec![false; n]; n];
    for &(a, b) in edge_list {
        m[a][b] = true;
        m[b][a] = true;
    }
    m
}

#[test]
fn empty_graph_all_heuristics() {
    let g = graph(0, &[]);
    for h in HEURISTICS {
        let (colors, count) = h(&g);
        assert_eq!(colors, Vec::<usize>::new());
        assert_eq!(count, 0);
        assert!(check_colors(&g, &colors));
    }
}

#[test]
fn edgeless_graph_uses_one_color() {
    let g = graph(5, &[]);
    for h in HEURISTICS {
        let (colors, count) = h(&g);
        assert_eq!(count, 1);
        assert_eq!(colors, vec![0, 0, 0, 0, 0]);
        assert!(check_colors(&g, &colors));
    }
}

#[test]
fn triangle_needs_three_colors() {
    let g = graph(3, &[(0, 1), (1, 2), (0, 2)]);
    for h in HEURISTICS {
        let (colors, count) = h(&g);
        assert_eq!(count, 3);
        assert_ne!(colors[0], colors[1]);
        assert_ne!(colors[1], colors[2]);
        assert_ne!(colors[0], colors[2]);
        assert!(check_colors(&g, &colors));
    }
}

#[test]
fn triangle_exact_colorings() {
    let g = graph(3, &[(0, 1), (1, 2), (0, 2)]);
    assert_eq!(first_fit(&g), (vec![0, 1, 2], 3));
    assert_eq!(welsh_powell(&g), (vec![2, 1, 0], 3));
    assert_eq!(largest_degree_ordering(&g), (vec![2, 1, 0], 3));
    assert_eq!(incidence_degree_ordering(&g), (vec![2, 1, 0], 3));
    assert_eq!(degree_of_saturation(&g), (vec![2, 1, 0], 3));
    assert_eq!(recursive_largest_first(&g), (vec![2, 1, 0], 3));
}

#[test]
fn path_of_four_uses_two_alternating_colors() {
    let g = graph(4, &[(0, 1), (1, 2), (2, 3)]);
    for h in HEURISTICS {
        let (colors, count) = h(&g);
        assert_eq!(count, 2);
        assert_eq!(colors, vec![0, 1, 0, 1]);
        assert!(check_colors(&g, &colors));
    }
}

#[test]
fn complete_bipartite_k44_uses_two_colors() {
    let mut edge_list = Vec::new();
    for a in 0..4 {
        for b in 4..8 {
            edge_list.push((a, b));
        }
    }
    let g = graph(8, &edge_list);
    for h in HEURISTICS {
        let (colors, count) = h(&g);
        assert_eq!(count, 2);
        assert!(check_colors(&g, &colors));
        for side_a in 0..4 {
            assert_eq!(colors[side_a], colors[0]);
            assert_eq!(colors[side_a + 4], colors[4]);
        }
        assert_ne!(colors[0], colors[4]);
    }
    assert_eq!(first_fit(&g).0, vec![0, 0, 0, 0, 1, 1, 1, 1]);
    assert_eq!(welsh_powell(&g).0, vec![1, 1, 1, 1, 0, 0, 0, 0]);
    assert_eq!(largest_degree_ordering(&g).0, vec![1, 1, 1, 1, 0, 0, 0, 0]);
    assert_eq!(incidence_degree_ordering(&g).0, vec![1, 1, 1, 1, 0, 0, 0, 0]);
    assert_eq!(degree_of_saturation(&g).0, vec![1, 1, 1, 1, 0, 0, 0, 0]);
    assert_eq!(recursive_largest_first(&g).0, vec![1, 1, 1, 1, 0, 0, 0, 0]);
}

#[test]
fn repeated_runs_are_identical() {
    let g = graph(
        7,
        &[(0, 1), (0, 3), (1, 2), (1, 4), (2, 5), (3, 4), (4, 5), (5, 6), (2, 6)],
    );
    for h in HEURISTICS {
        let first_run = h(&g);
        let second_run = h(&g);
        assert_eq!(first_run, second_run);
    }
}

#[test]
fn every_heuristic_valid_on_irregular_graph() {
    let g = graph(
        9,
        &[(0, 1), (0, 2), (1, 2), (2, 3), (3, 4), (4, 5), (5, 0), (6, 7), (3, 7), (1, 8)],
    );
    for h in HEURISTICS {
        let (colors, count) = h(&g);
        assert!(check_colors(&g, &colors));
        assert!(count >= 1);
        for c in &colors {
            assert!(*c < count);
        }
    }
}

#[test]
fn color_count_one_only_for_edgeless() {
    let with_edge = graph(4, &[(1, 3)]);
    for h in HEURISTICS {
        let (colors, count) = h(&with_edge);
        assert!(count >= 2);
        assert!(check_colors(&with_edge, &colors));
    }
}

#[test]
fn single_vertex_graph() {
    let g = graph(1, &[]);
    for h in HEURISTICS {
        let (colors, count) = h(&g);
        assert_eq!(colors, vec![0]);
        assert_eq!(count, 1);
        assert!(check_colors(&g, &colors));
    }
}

#[test]
fn complete_graph_k5_needs_five_colors() {
    let mut edge_list = Vec::new();
    for a in 0..5 {
        for b in (a + 1)..5 {
            edge_list.push((a, b));
        }
    }
    let g = graph(5, &edge_list);
    for h in HEURISTICS {
        let (colors, count) = h(&g);
        assert_eq!(count, 5);
        assert!(check_colors(&g, &colors));
    }
}
