use mesh_analytics::algos::AlgoError;
use mesh_analytics::config::AlgoConfig;
use mesh_analytics::dispatch::{run_algorithms, AlgoKind, Outcome};
use mesh_analytics::graph::{Edge, Graph};
use mesh_analytics::params::ParamValue;

fn path_graph() -> Graph {
    Graph {
        node_count: 3,
        edges: vec![
            Edge { u: 0, v: 1, weight: 2 },
            Edge { u: 1, v: 2, weight: 2 },
        ],
        histories: vec![vec![1, 2], vec![3, 3], vec![1, 2, 4]],
    }
}

#[test]
fn disabled_kind_leaves_no_entry() {
    let mut cfg = AlgoConfig::new();
    cfg.set_algos(0b11111);
    cfg.set_diff_cent(false);
    let g = path_graph();
    let rep = run_algorithms(&cfg, &g);
    assert_eq!(rep.len(), 4);
    assert!(rep.get(AlgoKind::DiffusionCentrality).is_none());
    assert!(rep.get(AlgoKind::ArticulationPoints).is_some());
    assert!(rep.get(AlgoKind::GlobalMinCut).is_some());
    assert!(rep.get(AlgoKind::MostSimilarTimeline).is_some());
    assert!(rep.get(AlgoKind::PredictedState).is_some());
}

#[test]
fn nothing_enabled_gives_an_empty_report() {
    let cfg = AlgoConfig::new();
    let g = path_graph();
    let rep = run_algorithms(&cfg, &g);
    assert_eq!(rep.len(), 0);
}

#[test]
fn entries_come_in_dispatch_order() {
    let mut cfg = AlgoConfig::new();
    cfg.set_algos(0b11111);
    cfg.diff_cent.params.add_param(String::from("T"), ParamValue::UInt(2));
    let g = path_graph();
    let rep = run_algorithms(&cfg, &g);
    assert_eq!(rep.len(), 5);
    assert_eq!(rep.kind_at(0), AlgoKind::ArticulationPoints);
    assert_eq!(rep.kind_at(1), AlgoKind::GlobalMinCut);
    assert_eq!(rep.kind_at(2), AlgoKind::DiffusionCentrality);
    assert_eq!(rep.kind_at(3), AlgoKind::MostSimilarTimeline);
    assert_eq!(rep.kind_at(4), AlgoKind::PredictedState);
}

#[test]
fn empty_graph_fills_every_enabled_slot_with_invalid_graph() {
    let mut cfg = AlgoConfig::new();
    cfg.set_algos(0b11111);
    let g = Graph { node_count: 0, edges: Vec::new(), histories: Vec::new() };
    let rep = run_algorithms(&cfg, &g);
    assert_eq!(rep.len(), 5);
    for i in 0..5 {
        let kind = rep.kind_at(i);
        match rep.get(kind) {
            Some(Err(e)) => assert_eq!(*e, AlgoError::InvalidGraph),
            _ => panic!("expected an invalid-graph error in every slot"),
        }
    }
}

#[test]
fn one_failure_leaves_the_other_outcomes_standing() {
    let mut cfg = AlgoConfig::new();
    cfg.set_algos(0b11111);
    // No "T" parameter: diffusion centrality must fail alone.
    let g = path_graph();
    let rep = run_algorithms(&cfg, &g);
    assert_eq!(rep.len(), 5);
    match rep.get(AlgoKind::DiffusionCentrality) {
        Some(Err(e)) => assert_eq!(*e, AlgoError::MissingParameter),
        _ => panic!("expected a missing-parameter error"),
    }
    match rep.get(AlgoKind::ArticulationPoints) {
        Some(Ok(Outcome::ArticulationPoints(aps))) => assert_eq!(aps, &vec![1]),
        _ => panic!("expected articulation points"),
    }
    match rep.get(AlgoKind::GlobalMinCut) {
        Some(Ok(Outcome::GlobalMinCut(mc))) => assert_eq!(mc.weight, 2),
        _ => panic!("expected a min cut"),
    }
    match rep.get(AlgoKind::MostSimilarTimeline) {
        Some(Ok(Outcome::MostSimilarTimeline(tm))) => {
            assert_eq!((tm.a, tm.b), (0, 2));
        }
        _ => panic!("expected a timeline match"),
    }
    match rep.get(AlgoKind::PredictedState) {
        Some(Ok(Outcome::PredictedState(ps))) => {
            assert_eq!(ps, &vec![(0, 3), (1, 3), (2, 6)]);
        }
        _ => panic!("expected predicted states"),
    }
}

#[test]
fn reports_key_outcomes_by_kind() {
    let mut cfg = AlgoConfig::new();
    cfg.set_mincut(true);
    let g = path_graph();
    let rep = run_algorithms(&cfg, &g);
    assert_eq!(rep.len(), 1);
    assert!(rep.get(AlgoKind::GlobalMinCut).is_some());
    assert!(rep.get(AlgoKind::ArticulationPoints).is_none());
}
