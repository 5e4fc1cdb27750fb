//! The execution dispatcher: runs the enabled algorithms against one graph
//! snapshot in a fixed order and collects one outcome per enabled kind into
//! a report. A disabled kind leaves no entry; one kind's failure never
//! touches another's slot.

use vstd::prelude::*;

verus! {

use crate::algos::{
    AlgoError,
    MinCutResult,
    TimelineMatch,
    articulation_points,
    global_min_cut,
    diffusion_centrality,
    most_similar_timeline,
    predicted_state,
    valid_articulation_list,
    valid_cut,
    valid_diffusion,
    valid_match,
    valid_prediction,
    step_param,
};
use crate::config::{AlgoConfig, ConfigView};
use crate::graph::{Graph, graph_connected};
use crate::params::ParamView;

/// The closed set of algorithm kinds, in the order the dispatcher runs them.
#[derive(Clone, Copy, PartialEq, Eq, Structural, Debug)]
pub enum AlgoKind {
    ArticulationPoints,
    GlobalMinCut,
    DiffusionCentrality,
    MostSimilarTimeline,
    PredictedState,
}

/// One algorithm's typed success result.
pub enum Outcome {
    ArticulationPoints(Vec<usize>),
    GlobalMinCut(MinCutResult),
    DiffusionCentrality(Vec<usize>),
    MostSimilarTimeline(TimelineMatch),
    PredictedState(Vec<(usize, i64)>),
}

/// An ordered report: one `(kind, outcome-or-error)` entry per enabled
/// algorithm, in dispatch order.
pub struct Report {
    entries: Vec<(AlgoKind, Result<Outcome, AlgoError>)>,
}

impl View for Report {
    type V = Seq<(AlgoKind, Result<Outcome, AlgoError>)>;

    closed spec fn view(&self) -> Seq<(AlgoKind, Result<Outcome, AlgoError>)> {
        self.entries@
    }
}

/// Whether the report holds an entry for the kind.
pub open spec fn report_has_kind(
    r: Seq<(AlgoKind, Result<Outcome, AlgoError>)>,
    k: AlgoKind,
) -> bool {
    exists|i: int| 0 <= i < r.len() && (#[trigger] r[i]).0 == k
}

impl Report {
    /// How many entries the report holds.
    pub fn len(&self) -> (r: usize)
        ensures
            r == self@.len(),
    {
        self.entries.len()
    }

    /// The kind of the entry at a position.
    pub fn kind_at(&self, i: usize) -> (r: AlgoKind)
        requires
            i < self@.len(),
        ensures
            r == self@[i as int].0,
    {
        self.entries[i].0
    }

    /// Borrows the outcome of the first entry of the given kind; absent when
    /// the kind left no entry.
    pub fn get(&self, kind: AlgoKind) -> (r: Option<&Result<Outcome, AlgoError>>)
        ensures
            match r {
                Some(v) => exists|i: int|
                    0 <= i < self@.len() && (#[trigger] self@[i]).0 == kind && self@[i].1 == *v,
                None => !report_has_kind(self@, kind),
            },
    {
        let n = self.entries.len();
        let mut i: usize = 0;
        while i < n
            invariant
                i <= n,
                n == self.entries@.len(),
                forall|j: int| 0 <= j < i ==> (#[trigger] self.entries@[j]).0 != kind,
            decreases n - i,
        {
            let ent = &self.entries[i];
            if ent.0 == kind {
                proof {
                    assert(0 <= i < self@.len() && (#[trigger] self@[i as int]).0 == kind
                        && self@[i as int].1 == ent.1);
                }
                return Some(&ent.1);
            }
            i += 1;
        }
        None
    }
}

/// The kinds a report should carry for a configuration: the enabled kinds,
/// in dispatch order.
pub open spec fn expected_kinds(c: ConfigView) -> Seq<AlgoKind> {
    let s = Seq::<AlgoKind>::empty();
    let s = if c.ap {
        s.push(AlgoKind::ArticulationPoints)
    } else {
        s
    };
    let s = if c.mincut {
        s.push(AlgoKind::GlobalMinCut)
    } else {
        s
    };
    let s = if c.diff_cent {
        s.push(AlgoKind::DiffusionCentrality)
    } else {
        s
    };
    let s = if c.most_sim_t {
        s.push(AlgoKind::MostSimilarTimeline)
    } else {
        s
    };
    if c.pred_state {
        s.push(AlgoKind::PredictedState)
    } else {
        s
    }
}

/// The kinds a report's entries carry, in order.
pub open spec fn report_kinds(r: Seq<(AlgoKind, Result<Outcome, AlgoError>)>) -> Seq<AlgoKind> {
    r.map_values(|e: (AlgoKind, Result<Outcome, AlgoError>)| e.0)
}

/// Whether the configuration enables the kind.
pub open spec fn kind_enabled(c: ConfigView, k: AlgoKind) -> bool {
    match k {
        AlgoKind::ArticulationPoints => c.ap,
        AlgoKind::GlobalMinCut => c.mincut,
        AlgoKind::DiffusionCentrality => c.diff_cent,
        AlgoKind::MostSimilarTimeline => c.most_sim_t,
        AlgoKind::PredictedState => c.pred_state,
    }
}

/// What the articulation-point slot of a report may hold.
pub open spec fn ap_entry(g: Graph, e: Result<Outcome, AlgoError>) -> bool {
    match e {
        Result::Err(err) => err == AlgoError::InvalidGraph && g.node_count == 0,
        Result::Ok(o) => match o {
            Outcome::ArticulationPoints(aps) => g.node_count > 0 && valid_articulation_list(
                g,
                aps@,
            ),
            _ => false,
        },
    }
}

/// What the global-min-cut slot of a report may hold.
pub open spec fn mincut_entry(g: Graph, e: Result<Outcome, AlgoError>) -> bool {
    match e {
        Result::Err(err) => err == AlgoError::InvalidGraph && g.node_count < 2,
        Result::Ok(o) => match o {
            Outcome::GlobalMinCut(mc) => g.node_count >= 2 && valid_cut(g, mc)
                && (!graph_connected(g.edges@, g.node_count as int) ==> mc.weight == 0),
            _ => false,
        },
    }
}

/// What the diffusion-centrality slot of a report may hold, given its bag.
pub open spec fn diff_cent_entry(
    g: Graph,
    m: Map<Seq<char>, ParamView>,
    e: Result<Outcome, AlgoError>,
) -> bool {
    match e {
        Result::Err(err) => if err == AlgoError::InvalidGraph {
            g.node_count == 0
        } else {
            err == AlgoError::MissingParameter && g.node_count > 0 && step_param(m) == 0
        },
        Result::Ok(o) => match o {
            Outcome::DiffusionCentrality(scores) => g.node_count > 0 && step_param(m) != 0
                && valid_diffusion(g, step_param(m), scores@),
            _ => false,
        },
    }
}

/// What the most-similar-timeline slot of a report may hold.
pub open spec fn most_sim_t_entry(g: Graph, e: Result<Outcome, AlgoError>) -> bool {
    match e {
        Result::Err(err) => if err == AlgoError::InvalidGraph {
            g.node_count == 0
        } else {
            err == AlgoError::InsufficientHistory && g.node_count > 0 && !crate::algos::two_histories(g)
        },
        Result::Ok(o) => match o {
            Outcome::MostSimilarTimeline(tm) => g.node_count > 0 && valid_match(g, tm),
            _ => false,
        },
    }
}

/// What the predicted-state slot of a report may hold.
pub open spec fn pred_state_entry(g: Graph, e: Result<Outcome, AlgoError>) -> bool {
    match e {
        Result::Err(err) => err == AlgoError::InvalidGraph && g.node_count == 0,
        Result::Ok(o) => match o {
            Outcome::PredictedState(ps) => g.node_count > 0 && valid_prediction(g, ps@),
            _ => false,
        },
    }
}

/// What any one entry of a dispatch report promises: its kind was enabled,
/// and its payload meets that kind's own contract on this graph.
pub open spec fn entry_valid(
    g: Graph,
    c: ConfigView,
    ent: (AlgoKind, Result<Outcome, AlgoError>),
) -> bool {
    &&& kind_enabled(c, ent.0)
    &&& match ent.0 {
        AlgoKind::ArticulationPoints => ap_entry(g, ent.1),
        AlgoKind::GlobalMinCut => mincut_entry(g, ent.1),
        AlgoKind::DiffusionCentrality => diff_cent_entry(g, c.diff_cent_params, ent.1),
        AlgoKind::MostSimilarTimeline => most_sim_t_entry(g, ent.1),
        AlgoKind::PredictedState => pred_state_entry(g, ent.1),
    }
}

/// Runs every enabled algorithm against the snapshot, in the fixed order of
/// `AlgoKind`, and collects one outcome per enabled kind. Disabled kinds
/// leave no entry at all; each entry's payload meets its own algorithm's
/// contract, so one kind's failure never disturbs another's slot. Neither
/// the graph nor the configuration is changed.
pub fn run_algorithms(cfg: &AlgoConfig, g: &Graph) -> (rep: Report)
    requires
        g.well_formed(),
    ensures
        report_kinds(rep@) == expected_kinds(cfg@),
        forall|i: int| 0 <= i < rep@.len() ==> entry_valid(*g, cfg@, #[trigger] rep@[i]),
{
    let mut entries: Vec<(AlgoKind, Result<Outcome, AlgoError>)> = Vec::new();
    if cfg.get_ap_activation() {
        let ent: Result<Outcome, AlgoError> = match articulation_points(g) {
            Ok(aps) => Ok(Outcome::ArticulationPoints(aps)),
            Err(e) => Err(e),
        };
        entries.push((AlgoKind::ArticulationPoints, ent));
    }
    if cfg.get_mincut_activation() {
        let ent: Result<Outcome, AlgoError> = match global_min_cut(g) {
            Ok(mc) => Ok(Outcome::GlobalMinCut(mc)),
            Err(e) => Err(e),
        };
        entries.push((AlgoKind::GlobalMinCut, ent));
    }
    if cfg.get_diff_cent_activation() {
        let ent: Result<Outcome, AlgoError> = match diffusion_centrality(
            g,
            cfg.get_diff_cent_params(),
        ) {
            Ok(scores) => Ok(Outcome::DiffusionCentrality(scores)),
            Err(e) => Err(e),
        };
        entries.push((AlgoKind::DiffusionCentrality, ent));
    }
    if cfg.get_most_sim_t_activation() {
        let ent: Result<Outcome, AlgoError> = match most_similar_timeline(g) {
            Ok(tm) => Ok(Outcome::MostSimilarTimeline(tm)),
            Err(e) => Err(e),
        };
        entries.push((AlgoKind::MostSimilarTimeline, ent));
    }
    if cfg.get_pred_state_activation() {
        let ent: Result<Outcome, AlgoError> = match predicted_state(g) {
            Ok(ps) => Ok(Outcome::PredictedState(ps)),
            Err(e) => Err(e),
        };
        entries.push((AlgoKind::PredictedState, ent));
    }
    let rep = Report { entries };
    proof {
        assert(report_kinds(rep@) =~= expected_kinds(cfg@));
    }
    rep
}

/// A disabled algorithm leaves no entry in the report: its kind is absent,
/// not present with an empty or false payload.
pub proof fn lemma_disabled_kind_absent(
    g: Graph,
    c: ConfigView,
    r: Seq<(AlgoKind, Result<Outcome, AlgoError>)>,
    k: AlgoKind,
)
    requires
        forall|i: int| 0 <= i < r.len() ==> entry_valid(g, c, #[trigger] r[i]),
        !kind_enabled(c, k),
    ensures
        !report_has_kind(r, k),
{
    if report_has_kind(r, k) {
        let i = choose|i: int| 0 <= i < r.len() && (#[trigger] r[i]).0 == k;
        assert(entry_valid(g, c, r[i]));
    }
}

/// On a graph with no nodes, every entry any dispatch produces is the
/// invalid-graph error: no algorithm has meaningful output there, and none
/// panics.
pub proof fn lemma_empty_graph_all_invalid(
    g: Graph,
    c: ConfigView,
    ent: (AlgoKind, Result<Outcome, AlgoError>),
)
    requires
        g.node_count == 0,
        entry_valid(g, c, ent),
    ensures
        ent.1 == Err::<Outcome, AlgoError>(AlgoError::InvalidGraph),
{
}

} // verus!
