//! Activation flags and the algorithm configuration registry: one
//! activation flag and one parameter bag per algorithm kind, with bulk
//! bitfield assignment of the flags.

use vstd::prelude::*;

verus! {

use crate::params::{Params, ParamView};

/// The switch that decides whether one algorithm runs in a dispatch.
#[derive(Debug)]
pub struct Activation {
    pub run: bool,
}

impl Activation {
    /// Creates a new activation switch; algorithms start disabled.
    pub fn new() -> (r: Activation)
        ensures
            !r.run,
    {
        Activation { run: false }
    }

    /// Sets whether the algorithm should be run.
    pub fn set(&mut self, run: bool)
        ensures
            final(self).run == run,
    {
        self.run = run;
    }

    /// Reads whether the algorithm should be run.
    pub fn get(&self) -> (r: bool)
        ensures
            r == self.run,
    {
        self.run
    }
}

/// Configuration for the articulation point algorithm.
#[derive(Debug)]
pub struct APConf {
    pub activation: Activation,
    pub params: Params,
}

/// Configuration for the global minimum cut algorithm.
#[derive(Debug)]
pub struct MinCutConf {
    pub activation: Activation,
    pub params: Params,
}

/// Configuration for the diffusion centrality algorithm, whose bag is
/// expected to carry the step bound `T`.
#[derive(Debug)]
pub struct DiffCentConf {
    pub activation: Activation,
    pub params: Params,
}

/// Configuration for the most similar timeline algorithm.
#[derive(Debug)]
pub struct MostSimTConf {
    pub activation: Activation,
    pub params: Params,
}

/// Configuration for the predicted state algorithm.
#[derive(Debug)]
pub struct PredStateConf {
    pub activation: Activation,
    pub params: Params,
}

/// Mathematical image of a registry: five activation flags and the five
/// parameter bags, one pair per algorithm kind.
pub struct ConfigView {
    pub ap: bool,
    pub mincut: bool,
    pub diff_cent: bool,
    pub most_sim_t: bool,
    pub pred_state: bool,
    pub ap_params: Map<Seq<char>, ParamView>,
    pub mincut_params: Map<Seq<char>, ParamView>,
    pub diff_cent_params: Map<Seq<char>, ParamView>,
    pub most_sim_t_params: Map<Seq<char>, ParamView>,
    pub pred_state_params: Map<Seq<char>, ParamView>,
}

/// The registry: exactly one configuration per algorithm kind, always
/// present, so activation and parameter lookups never fail for a valid kind.
#[derive(Debug)]
pub struct AlgoConfig {
    pub ap: APConf,
    pub mincut: MinCutConf,
    pub diff_cent: DiffCentConf,
    pub most_sim_t: MostSimTConf,
    pub pred_state: PredStateConf,
}

impl View for AlgoConfig {
    type V = ConfigView;

    open spec fn view(&self) -> ConfigView {
        ConfigView {
            ap: self.ap.activation.run,
            mincut: self.mincut.activation.run,
            diff_cent: self.diff_cent.activation.run,
            most_sim_t: self.most_sim_t.activation.run,
            pred_state: self.pred_state.activation.run,
            ap_params: self.ap.params@,
            mincut_params: self.mincut.params@,
            diff_cent_params: self.diff_cent.params@,
            most_sim_t_params: self.most_sim_t.params@,
            pred_state_params: self.pred_state.params@,
        }
    }
}

/// The flag state that one bulk bitfield assignment leaves behind: each bit
/// decides its kind's flag absolutely, and the parameter bags are untouched.
pub open spec fn spec_set_algos(c: ConfigView, bitfield: u8) -> ConfigView {
    ConfigView {
        ap: bitfield & 0b00001 != 0,
        mincut: bitfield & 0b00010 != 0,
        diff_cent: bitfield & 0b00100 != 0,
        most_sim_t: bitfield & 0b01000 != 0,
        pred_state: bitfield & 0b10000 != 0,
        ..c
    }
}

impl AlgoConfig {
    /// Creates a registry with every algorithm disabled and every bag empty.
    pub fn new() -> (r: AlgoConfig)
        ensures
            !r@.ap,
            !r@.mincut,
            !r@.diff_cent,
            !r@.most_sim_t,
            !r@.pred_state,
            r@.ap_params == Map::<Seq<char>, ParamView>::empty(),
            r@.mincut_params == Map::<Seq<char>, ParamView>::empty(),
            r@.diff_cent_params == Map::<Seq<char>, ParamView>::empty(),
            r@.most_sim_t_params == Map::<Seq<char>, ParamView>::empty(),
            r@.pred_state_params == Map::<Seq<char>, ParamView>::empty(),
    {
        AlgoConfig {
            ap: APConf { activation: Activation::new(), params: Params::new() },
            mincut: MinCutConf { activation: Activation::new(), params: Params::new() },
            diff_cent: DiffCentConf { activation: Activation::new(), params: Params::new() },
            most_sim_t: MostSimTConf { activation: Activation::new(), params: Params::new() },
            pred_state: PredStateConf { activation: Activation::new(), params: Params::new() },
        }
    }

    /// Assigns all five activation flags at once from a bitfield. Bit 0
    /// enables articulation points, bit 1 global minimum cut, bit 2
    /// diffusion centrality, bit 3 most similar timeline and bit 4 predicted
    /// state; a clear bit disables its kind. The assignment is absolute: a
    /// narrower mask turns previously enabled algorithms off.
    pub fn set_algos(&mut self, bitfield: u8)
        ensures
            final(self)@ == spec_set_algos(old(self)@, bitfield),
            final(self)@.ap == (bitfield & 0b00001 != 0),
            final(self)@.mincut == (bitfield & 0b00010 != 0),
            final(self)@.diff_cent == (bitfield & 0b00100 != 0),
            final(self)@.most_sim_t == (bitfield & 0b01000 != 0),
            final(self)@.pred_state == (bitfield & 0b10000 != 0),
    {
        self.set_ap(bitfield & 0b00001 != 0);
        self.set_mincut(bitfield & 0b00010 != 0);
        self.set_diff_cent(bitfield & 0b00100 != 0);
        self.set_most_sim_t(bitfield & 0b01000 != 0);
        self.set_pred_state(bitfield & 0b10000 != 0);
    }

    /// Enables or disables the articulation point algorithm alone.
    pub fn set_ap(&mut self, ap: bool)
        ensures
            final(self)@ == (ConfigView { ap, ..old(self)@ }),
    {
        self.ap.activation.set(ap);
    }

    /// Enables or disables the global minimum cut algorithm alone.
    pub fn set_mincut(&mut self, mincut: bool)
        ensures
            final(self)@ == (ConfigView { mincut, ..old(self)@ }),
    {
        self.mincut.activation.set(mincut);
    }

    /// Enables or disables the diffusion centrality algorithm alone.
    pub fn set_diff_cent(&mut self, diff_cent: bool)
        ensures
            final(self)@ == (ConfigView { diff_cent, ..old(self)@ }),
    {
        self.diff_cent.activation.set(diff_cent);
    }

    /// Enables or disables the most similar timeline algorithm alone.
    pub fn set_most_sim_t(&mut self, most_sim_t: bool)
        ensures
            final(self)@ == (ConfigView { most_sim_t, ..old(self)@ }),
    {
        self.most_sim_t.activation.set(most_sim_t);
    }

    /// Enables or disables the predicted state algorithm alone.
    pub fn set_pred_state(&mut self, pred_state: bool)
        ensures
            final(self)@ == (ConfigView { pred_state, ..old(self)@ }),
    {
        self.pred_state.activation.set(pred_state);
    }

    /// Reads the articulation point activation flag.
    pub fn get_ap_activation(&self) -> (r: bool)
        ensures
            r == self@.ap,
    {
        self.ap.activation.get()
    }

    /// Reads the global minimum cut activation flag.
    pub fn get_mincut_activation(&self) -> (r: bool)
        ensures
            r == self@.mincut,
    {
        self.mincut.activation.get()
    }

    /// Reads the diffusion centrality activation flag.
    pub fn get_diff_cent_activation(&self) -> (r: bool)
        ensures
            r == self@.diff_cent,
    {
        self.diff_cent.activation.get()
    }

    /// Reads the most similar timeline activation flag.
    pub fn get_most_sim_t_activation(&self) -> (r: bool)
        ensures
            r == self@.most_sim_t,
    {
        self.most_sim_t.activation.get()
    }

    /// Reads the predicted state activation flag.
    pub fn get_pred_state_activation(&self) -> (r: bool)
        ensures
            r == self@.pred_state,
    {
        self.pred_state.activation.get()
    }

    /// Borrows the articulation point parameter bag.
    pub fn get_ap_params(&self) -> (r: &Params)
        ensures
            r@ == self@.ap_params,
    {
        &self.ap.params
    }

    /// Borrows the global minimum cut parameter bag.
    pub fn get_mincut_params(&self) -> (r: &Params)
        ensures
            r@ == self@.mincut_params,
    {
        &self.mincut.params
    }

    /// Borrows the diffusion centrality parameter bag.
    pub fn get_diff_cent_params(&self) -> (r: &Params)
        ensures
            r@ == self@.diff_cent_params,
    {
        &self.diff_cent.params
    }

    /// Borrows the most similar timeline parameter bag.
    pub fn get_most_sim_t_params(&self) -> (r: &Params)
        ensures
            r@ == self@.most_sim_t_params,
    {
        &self.most_sim_t.params
    }

    /// Borrows the predicted state parameter bag.
    pub fn get_pred_state_params(&self) -> (r: &Params)
        ensures
            r@ == self@.pred_state_params,
    {
        &self.pred_state.params
    }
}

/// Assigning the same bitfield twice in a row leaves exactly the
/// configuration that assigning it once leaves.
pub proof fn lemma_set_algos_idempotent(c: ConfigView, bitfield: u8)
    ensures
        spec_set_algos(spec_set_algos(c, bitfield), bitfield) == spec_set_algos(c, bitfield),
{
}

/// Bulk assignment and the five individual setters agree: setting each flag
/// to its bit of the bitfield, in any one-at-a-time order, leaves the same
/// state as one bulk assignment.
pub proof fn lemma_set_algos_matches_single_setters(c: ConfigView, bitfield: u8)
    ensures
        spec_set_algos(c, bitfield) == (ConfigView {
            ap: bitfield & 0b00001 != 0,
            mincut: bitfield & 0b00010 != 0,
            diff_cent: bitfield & 0b00100 != 0,
            most_sim_t: bitfield & 0b01000 != 0,
            pred_state: bitfield & 0b10000 != 0,
            ..c
        }),
{
}

} // verus!
