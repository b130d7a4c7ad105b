use algorithms::list;
use algorithms::matrix;
use algorithms::search::QueryError;

fn create_list_graph() -> list::Graph {
    let mut g = list::Graph::new(5);
    g.add_multiple(0, &[(1, 0), (2, 0)]);
    g.add_multiple(2, &[(3, 0), (4, 0)]);
    g.add(1, 3, 0);
    g
}

fn create_matrix_graph() -> matrix::Graph {
    let mut g = matrix::Graph::new(5);
    g.add_multiple(0, &[(1, 0), (2, 0)]);
    g.add_multiple(2, &[(3, 0), (4, 0)]);
    g.add(1, 3, 0);
    g
}

fn weighted_graph() -> list::Graph {
    let mut g = list::Graph::new(5);
    g.add_multiple(0, &[(1, 1), (2, 5)]);
    g.add_multiple(1, &[(2, 7), (3, 3)]);
    g.add_multiple(2, &[(4, 1)]);
    g.add_multiple(3, &[(1, 1), (2, 2)]);
    g
}

#[test]
fn dfs() {
    let g = create_list_graph();

    let p = g.depth_first_search(0, 4).unwrap();
    assert_eq!(p, vec![0, 2, 4]);
}

#[test]
fn dijkstra() {
    let g = weighted_graph();

    let (path, cost) = g.dijkstra(0, 4).unwrap();
    assert_eq!(path, vec![0, 2, 4]);
    assert_eq!(cost, 6);
}

#[test]
fn bfs() {
    let g = create_matrix_graph();

    let p = g.breadth_first_search(0, 4).unwrap();
    assert_eq!(p, vec![0, 2, 4]);
}

#[test]
fn dfs_same_source_and_target() {
    let g = create_list_graph();
    for v in 0..5 {
        assert_eq!(g.depth_first_search(v, v), Some(vec![v]));
    }
}

#[test]
fn bfs_same_source_and_target() {
    let g = create_matrix_graph();
    assert_eq!(g.breadth_first_search(3, 3), Some(vec![3]));
}

#[test]
fn dijkstra_same_source_and_target() {
    let g = weighted_graph();
    assert_eq!(g.dijkstra(2, 2), None);
}

#[test]
fn no_edges_no_paths() {
    let l = list::Graph::new(5);
    let m = matrix::Graph::new(5);
    assert_eq!(l.depth_first_search(0, 4), None);
    assert_eq!(l.dijkstra(0, 4), None);
    assert_eq!(m.breadth_first_search(0, 4), None);
}

#[test]
fn unreachable_target() {
    let g = create_list_graph();
    assert_eq!(g.depth_first_search(4, 0), None);
    assert_eq!(g.dijkstra(3, 0), None);
    let m = create_matrix_graph();
    assert_eq!(m.breadth_first_search(4, 0), None);
}

#[test]
fn dfs_follows_insertion_order() {
    let mut g = list::Graph::new(4);
    g.add(0, 1, 0);
    g.add(0, 2, 0);
    g.add(1, 3, 0);
    g.add(2, 3, 0);
    assert_eq!(g.depth_first_search(0, 3), Some(vec![0, 1, 3]));

    let mut h = list::Graph::new(4);
    h.add(0, 2, 0);
    h.add(0, 1, 0);
    h.add(1, 3, 0);
    h.add(2, 3, 0);
    assert_eq!(h.depth_first_search(0, 3), Some(vec![0, 2, 3]));
}

#[test]
fn dfs_survives_cycles() {
    let mut g = list::Graph::new(4);
    g.add_multiple(0, &[(1, 0)]);
    g.add_multiple(1, &[(0, 0), (2, 0)]);
    g.add_multiple(2, &[(1, 0), (3, 0)]);
    assert_eq!(g.depth_first_search(0, 3), Some(vec![0, 1, 2, 3]));
    assert_eq!(g.depth_first_search(3, 0), None);
}

#[test]
fn bfs_finds_fewest_edges() {
    let mut m = matrix::Graph::new(6);
    m.add_multiple(0, &[(1, 1), (5, 1)]);
    m.add(1, 2, 1);
    m.add(2, 3, 1);
    m.add(3, 4, 1);
    m.add(5, 4, 1);
    assert_eq!(m.breadth_first_search(0, 4), Some(vec![0, 5, 4]));

    let mut l = list::Graph::new(6);
    l.add_multiple(0, &[(1, 1), (5, 1)]);
    l.add(1, 2, 1);
    l.add(2, 3, 1);
    l.add(3, 4, 1);
    l.add(5, 4, 1);
    assert_eq!(l.depth_first_search(0, 4), Some(vec![0, 1, 2, 3, 4]));
}

#[test]
fn matrix_add_overwrites() {
    let mut m = matrix::Graph::new(3);
    m.add(0, 1, 4);
    m.add(0, 1, 9);
    m.add(1, 2, 1);
    assert_eq!(m.breadth_first_search(0, 2), Some(vec![0, 1, 2]));
}

#[test]
fn dijkstra_cost_is_path_weight() {
    let mut g = list::Graph::new(4);
    g.add(0, 1, 2);
    g.add(1, 2, 3);
    g.add(2, 3, 4);
    assert_eq!(g.dijkstra(0, 3), Some((vec![0, 1, 2, 3], 9)));
}

#[test]
fn dijkstra_settles_vertex_on_first_discovery() {
    // 1 is first reached straight from 0 at cost 10; the cheaper way
    // 0 -> 2 -> 1 at cost 2 is found only after 1 was settled.
    let mut g = list::Graph::new(3);
    g.add(0, 1, 10);
    g.add(0, 2, 1);
    g.add(2, 1, 1);
    assert_eq!(g.dijkstra(0, 1), Some((vec![0, 1], 10)));
}

#[test]
fn dijkstra_skips_steps_that_overflow() {
    let mut g = list::Graph::new(3);
    g.add(0, 1, i32::MAX);
    g.add(1, 2, 1);
    assert_eq!(g.dijkstra(0, 1), Some((vec![0, 1], i32::MAX)));
    assert_eq!(g.dijkstra(0, 2), None);
}

#[test]
fn repeated_queries_agree() {
    let g = weighted_graph();
    for s in 0..5 {
        for t in 0..5 {
            assert_eq!(g.depth_first_search(s, t), g.depth_first_search(s, t));
            assert_eq!(g.dijkstra(s, t), g.dijkstra(s, t));
        }
    }
    let m = create_matrix_graph();
    for s in 0..5 {
        for t in 0..5 {
            assert_eq!(m.breadth_first_search(s, t), m.breadth_first_search(s, t));
        }
    }
}

#[test]
fn parallel_edges_are_kept() {
    let mut g = list::Graph::new(2);
    g.add(0, 1, 7);
    g.add(0, 1, 3);
    assert_eq!(g.depth_first_search(0, 1), Some(vec![0, 1]));
    assert_eq!(g.dijkstra(0, 1), Some((vec![0, 1], 7)));
}

#[test]
fn empty_graph_refuses_every_index() {
    let l = list::Graph::new(0);
    let m = matrix::Graph::new(0);
    assert_eq!(l.vertex_count(), 0);
    assert_eq!(m.vertex_count(), 0);
    assert_eq!(l.try_depth_first_search(0, 0), Err(QueryError::IndexOutOfRange(0)));
    assert_eq!(l.try_dijkstra(0, 0), Err(QueryError::IndexOutOfRange(0)));
    assert_eq!(m.try_breadth_first_search(0, 0), Err(QueryError::IndexOutOfRange(0)));
}

#[test]
fn checked_queries_name_the_bad_index() {
    let g = create_list_graph();
    assert_eq!(g.try_depth_first_search(7, 9), Err(QueryError::IndexOutOfRange(7)));
    assert_eq!(g.try_dijkstra(1, 5), Err(QueryError::IndexOutOfRange(5)));
    assert_eq!(g.try_depth_first_search(0, 4), Ok(Some(vec![0, 2, 4])));
    assert_eq!(g.try_dijkstra(4, 0), Ok(None));
    let m = create_matrix_graph();
    assert_eq!(m.try_breadth_first_search(5, 0), Err(QueryError::IndexOutOfRange(5)));
    assert_eq!(m.try_breadth_first_search(0, 3), Ok(Some(vec![0, 1, 3])));
}

#[test]
fn dijkstra_breaks_ties_by_vertex() {
    let mut g = list::Graph::new(4);
    g.add_multiple(0, &[(2, 1), (1, 1)]);
    g.add(1, 3, 1);
    g.add(2, 3, 1);
    assert_eq!(g.dijkstra(0, 3), Some((vec![0, 1, 3], 2)));
}

#[test]
fn dfs_path_is_simple_walk() {
    let edges: Vec<(usize, usize)> = vec![(0, 1), (1, 0), (1, 2), (2, 1), (2, 0), (0, 3), (3, 4), (4, 2), (2, 5)];
    let mut g = list::Graph::new(6);
    for &(u, v) in &edges {
        g.add(u, v, 1);
    }
    for s in 0..6 {
        for t in 0..6 {
            if let Some(p) = g.depth_first_search(s, t) {
                assert_eq!(p[0], s);
                assert_eq!(*p.last().unwrap(), t);
                for w in p.windows(2) {
                    assert!(edges.contains(&(w[0], w[1])));
                }
                let mut sorted = p.clone();
                sorted.sort();
                sorted.dedup();
                assert_eq!(sorted.len(), p.len());
            }
        }
    }
    assert_eq!(g.depth_first_search(5, 0), None);
    assert_eq!(g.depth_first_search(0, 5), Some(vec![0, 1, 2, 5]));
}
