//! Plain argument values, as the library receives them after command-line
//! parsing and validation have happened outside.

use vstd::prelude::*;

verus! {

/// Parsed command-line arguments.
#[derive(Debug, Clone)]
pub struct Args {
    /// Number of initial vertices; at least 2.
    pub n: usize,
    /// Number of new edges per time step; between 1 and `n`.
    pub m: usize,
    /// Number of discrete steps to simulate.
    pub t_max: usize,
    /// Number of independent trials to average over.
    pub iterations: usize,
    pub starting_graph: ArgsGraphType,
    pub model: ArgsModelType,
}

#[derive(Debug, Clone, Copy, PartialEq, Eq, Structural)]
pub enum ArgsGraphType {
    Complete,
    Star,
    Disconnected,
}

#[derive(Debug, Clone, Copy, PartialEq, Eq, Structural)]
pub enum ArgsModelType {
    GrowthPreferential,
    NoGrowthPreferential,
    GrowthRandom,
}

impl Default for ArgsGraphType {
    fn default() -> (r: Self)
        ensures
            r == ArgsGraphType::Complete,
    {
        ArgsGraphType::Complete
    }
}

impl ArgsModelType {
    /// Stable name of the model variant, used to label output files.
    pub fn label(&self) -> (r: &'static str)
        ensures
            *self == ArgsModelType::GrowthPreferential ==> r@ == "growth_preferential"@,
            *self == ArgsModelType::GrowthRandom ==> r@ == "growth_random"@,
            *self == ArgsModelType::NoGrowthPreferential ==> r@ == "no_growth_preferential"@,
    {
        match self {
            ArgsModelType::GrowthPreferential => "growth_preferential",
            ArgsModelType::GrowthRandom => "growth_random",
            ArgsModelType::NoGrowthPreferential => "no_growth_preferential",
        }
    }
}

/// A disconnected seed has no stubs to attach to, so it pairs only with the
/// policy that does not grow the vertex set.
pub fn validate_args(args: &Args) -> (r: Result<(), &'static str>)
    ensures
        r is Err <==> ((args.model == ArgsModelType::GrowthPreferential || args.model
            == ArgsModelType::GrowthRandom) && args.starting_graph
            == ArgsGraphType::Disconnected),
{
    if matches!(args.model, ArgsModelType::GrowthPreferential | ArgsModelType::GrowthRandom)
        && args.starting_graph == ArgsGraphType::Disconnected {
        Err(
            "Starting graph `Disconnected` is not allowed with models `GrowthPreferential` or `GrowthRandom`.",
        )
    } else {
        Ok(())
    }
}

} // verus!
