use graph_coloring::coloring::check_colors;
use graph_coloring::graph::{degree_list, sorted_index_list};
use graph_coloring::greedy::assign_color;

fn graph(n: usize, edge_list: &[(usize, usize)]) -> Vec<Vec<bool>> {
    let mut m = vec![vec![false; n]; n];
    for &(a, b) in edge_list {
        m[a][b] = true;
        m[b][a] = true;
    }
    m
}

#[test]
fn degrees_of_a_path() {
    let g = graph(4, &[(0, 1), (1, 2), (2, 3)]);
    assert_eq!(degree_list(&g), vec![1, 2, 2, 1]);
}

#[test]
fn degrees_of_a_star() {
    let g = graph(5, &[(0, 1), (0, 2), (0, 3), (0, 4)]);
    assert_eq!(degree_list(&g), vec![4, 1, 1, 1, 1]);
}

#[test]
fn sorted_indices_break_ties_by_index() {
    let g = graph(4, &[(0, 1), (1, 2), (2, 3)]);
    let degrees = degree_list(&g);
    assert_eq!(sorted_index_list(&g, &degrees), vec![0, 3, 1, 2]);
}

#[test]
fn sorted_indices_on_equal_degrees_keep_index_order() {
    let g = graph(3, &[(0, 1), (1, 2), (0, 2)]);
    let degrees = degree_list(&g);
    assert_eq!(sorted_index_list(&g, &degrees), vec![0, 1, 2]);
}

#[test]
fn assign_color_picks_smallest_free_color() {
    let g = graph(4, &[(0, 1), (1, 2), (2, 3)]);
    let mut colors = vec![usize::MAX; 4];
    let mut count: usize = 0;

    assign_color(0, &mut colors, &g, &mut count);
    assert_eq!((colors[0], count), (0, 1));

    assign_color(1, &mut colors, &g, &mut count);
    assert_eq!((colors[1], count), (1, 2));

    assign_color(2, &mut colors, &g, &mut count);
    assert_eq!((colors[2], count), (0, 2));

    assign_color(3, &mut colors, &g, &mut count);
    assert_eq!((colors[3], count), (1, 2));
}

#[test]
fn assign_color_reuses_a_freed_gap() {
    // vertex 3 of the star sees colors 1 and 2 on its neighbors, not 0
    let g = graph(4, &[(3, 1), (3, 2)]);
    let mut colors = vec![usize::MAX, 1, 2, usize::MAX];
    let mut count: usize = 3;
    assign_color(3, &mut colors, &g, &mut count);
    assert_eq!((colors[3], count), (0, 3));
}

#[test]
fn checker_accepts_a_proper_coloring() {
    let g = graph(4, &[(0, 1), (1, 2), (2, 3)]);
    let colors = vec![0, 1, 0, 1];
    assert!(check_colors(&g, &colors));
}

#[test]
fn checker_rejects_equal_endpoints() {
    let g = graph(4, &[(0, 1), (1, 2), (2, 3)]);
    let colors = vec![0, 0, 1, 0];
    assert!(!check_colors(&g, &colors));
}

#[test]
fn checker_rejects_an_uncolored_vertex() {
    let g = graph(3, &[(0, 1)]);
    let colors = vec![0, 1, usize::MAX];
    assert!(!check_colors(&g, &colors));
}

#[test]
fn checker_rejects_a_self_loop() {
    // a vertex adjacent to itself can never be properly colored
    let mut g = graph(2, &[(0, 1)]);
    g[1][1] = true;
    let colors = vec![0, 1];
    assert!(!check_colors(&g, &colors));
}

#[test]
fn checker_verdict_is_repeatable() {
    let g = graph(4, &[(0, 1), (1, 2), (2, 3)]);
    let good = vec![0, 1, 0, 1];
    let bad = vec![0, 0, 1, 0];
    assert_eq!(check_colors(&g, &good), check_colors(&g, &good));
    assert_eq!(check_colors(&g, &bad), check_colors(&g, &bad));
    assert!(check_colors(&g, &good));
    assert!(!check_colors(&g, &bad));
}

#[test]
fn checker_accepts_the_empty_graph() {
    let g = graph(0, &[]);
    let colors: Vec<usize> = Vec::new();
    assert!(check_colors(&g, &colors));
}
