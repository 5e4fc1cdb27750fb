use mesh_analytics::algos::{
    articulation_points, diffusion_centrality, global_min_cut, most_similar_timeline,
    predicted_state, AlgoError,
};
use mesh_analytics::graph::{Edge, Graph};
use mesh_analytics::params::{ParamValue, Params};

fn graph(n: usize, edges: Vec<(usize, usize, u64)>) -> Graph {
    let histories = std::iter::repeat(Vec::new()).take(n).collect();
    Graph {
        node_count: n,
        edges: edges
            .into_iter()
            .map(|(u, v, weight)| Edge { u, v, weight })
            .collect(),
        histories,
    }
}

#[test]
fn min_cut_two_nodes_one_edge_returns_its_weight() {
    let g = graph(2, vec![(0, 1, 7)]);
    let mc = global_min_cut(&g).unwrap();
    assert_eq!(mc.weight, 7);
    assert_ne!(mc.side[0], mc.side[1]);
}

#[test]
fn min_cut_two_components_returns_zero() {
    // Two triangles, no edge between them.
    let g = graph(
        6,
        vec![(0, 1, 4), (1, 2, 4), (2, 0, 4), (3, 4, 9), (4, 5, 9), (5, 3, 9)],
    );
    let mc = global_min_cut(&g).unwrap();
    assert_eq!(mc.weight, 0);
}

#[test]
fn min_cut_connected_ring_finds_the_light_cut() {
    // A ring 0-1-2-3-0: the lightest cut separates {1, 2} by the two
    // weight-1 edges.
    let g = graph(4, vec![(0, 1, 1), (1, 2, 3), (2, 3, 1), (3, 0, 3)]);
    let mc = global_min_cut(&g).unwrap();
    assert_eq!(mc.weight, 2);
}

#[test]
fn min_cut_under_two_nodes_is_invalid_graph() {
    let g0 = graph(0, vec![]);
    assert_eq!(global_min_cut(&g0).unwrap_err(), AlgoError::InvalidGraph);
    let g1 = graph(1, vec![]);
    assert_eq!(global_min_cut(&g1).unwrap_err(), AlgoError::InvalidGraph);
}

#[test]
fn articulation_points_on_a_path_is_the_middle() {
    let g = graph(3, vec![(0, 1, 1), (1, 2, 1)]);
    let aps = articulation_points(&g).unwrap();
    assert_eq!(aps, vec![1]);
}

#[test]
fn articulation_points_on_a_triangle_is_empty() {
    let g = graph(3, vec![(0, 1, 1), (1, 2, 1), (2, 0, 1)]);
    let aps = articulation_points(&g).unwrap();
    assert!(aps.is_empty());
}

#[test]
fn articulation_points_per_component() {
    // Two paths: 0-1-2 and 3-4-5; both middles are articulation points.
    let g = graph(6, vec![(0, 1, 1), (1, 2, 1), (3, 4, 1), (4, 5, 1)]);
    let aps = articulation_points(&g).unwrap();
    assert_eq!(aps, vec![1, 4]);
}

#[test]
fn articulation_points_ignore_self_loops_and_multi_edges() {
    let g = graph(3, vec![(0, 1, 1), (0, 1, 2), (1, 2, 1), (2, 2, 5)]);
    let aps = articulation_points(&g).unwrap();
    assert_eq!(aps, vec![1]);
}

#[test]
fn articulation_points_on_empty_graph_is_invalid_graph() {
    let g = graph(0, vec![]);
    assert_eq!(articulation_points(&g).unwrap_err(), AlgoError::InvalidGraph);
}

#[test]
fn diffusion_centrality_counts_bounded_spread() {
    let g = graph(3, vec![(0, 1, 1), (1, 2, 1)]);
    let mut bag = Params::new();
    bag.add_param(String::from("T"), ParamValue::UInt(1));
    let scores = diffusion_centrality(&g, &bag).unwrap();
    assert_eq!(scores, vec![2, 3, 2]);
    let mut bag2 = Params::new();
    bag2.add_param(String::from("T"), ParamValue::UInt(2));
    let scores2 = diffusion_centrality(&g, &bag2).unwrap();
    assert_eq!(scores2, vec![3, 3, 3]);
}

#[test]
fn diffusion_centrality_without_usable_bound_is_missing_parameter() {
    let g = graph(2, vec![(0, 1, 1)]);
    let empty = Params::new();
    assert_eq!(
        diffusion_centrality(&g, &empty).unwrap_err(),
        AlgoError::MissingParameter
    );
    let mut zero = Params::new();
    zero.add_param(String::from("T"), ParamValue::UInt(0));
    assert_eq!(
        diffusion_centrality(&g, &zero).unwrap_err(),
        AlgoError::MissingParameter
    );
    let mut wrong_shape = Params::new();
    wrong_shape.add_param(String::from("T"), ParamValue::Text(String::from("3")));
    assert_eq!(
        diffusion_centrality(&g, &wrong_shape).unwrap_err(),
        AlgoError::MissingParameter
    );
}

#[test]
fn diffusion_centrality_on_empty_graph_is_invalid_before_parameters() {
    let g = graph(0, vec![]);
    let empty = Params::new();
    assert_eq!(
        diffusion_centrality(&g, &empty).unwrap_err(),
        AlgoError::InvalidGraph
    );
}

#[test]
fn most_similar_timeline_finds_the_closest_pair() {
    let mut g = graph(4, vec![(0, 1, 1), (1, 2, 1), (2, 3, 1)]);
    g.histories[0] = vec![1, 2, 3];
    g.histories[1] = vec![10, 20, 30];
    g.histories[2] = vec![1, 2, 4];
    let tm = most_similar_timeline(&g).unwrap();
    assert_eq!((tm.a, tm.b), (0, 2));
    assert_eq!(tm.distance, 1);
}

#[test]
fn most_similar_timeline_breaks_ties_on_the_first_pair() {
    let mut g = graph(3, vec![]);
    g.histories[0] = vec![5];
    g.histories[1] = vec![5];
    g.histories[2] = vec![5];
    let tm = most_similar_timeline(&g).unwrap();
    assert_eq!((tm.a, tm.b), (0, 1));
    assert_eq!(tm.distance, 0);
}

#[test]
fn most_similar_timeline_needs_two_histories() {
    let mut g = graph(3, vec![(0, 1, 1)]);
    g.histories[1] = vec![4, 4];
    assert_eq!(
        most_similar_timeline(&g).unwrap_err(),
        AlgoError::InsufficientHistory
    );
    let g0 = graph(0, vec![]);
    assert_eq!(most_similar_timeline(&g0).unwrap_err(), AlgoError::InvalidGraph);
}

#[test]
fn predicted_state_extrapolates_and_excludes_sampleless_nodes() {
    let mut g = graph(3, vec![]);
    g.histories[0] = vec![1, 2];
    g.histories[2] = vec![5];
    let ps = predicted_state(&g).unwrap();
    assert_eq!(ps, vec![(0, 3), (2, 5)]);
}

#[test]
fn predicted_state_on_empty_graph_is_invalid_graph() {
    let g = graph(0, vec![]);
    assert_eq!(predicted_state(&g).unwrap_err(), AlgoError::InvalidGraph);
}
