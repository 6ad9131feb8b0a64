//! Repeated runs of a scheduler, and what the valid ones amount to.

use vstd::prelude::*;
use crate::models::attraction::Attraction;
use crate::models::constraints::SolveParams;
use crate::models::itinerary::Itinerary;
use crate::utils::distance::DistanceTable;
use crate::utils::feasibility::{is_valid, verify_itinerary};

verus! {

/// What the valid runs of an experiment amount to.
#[derive(Debug, Clone)]
pub struct ExperimentStats {
    /// The number of runs whose itinerary was valid.
    pub valid_runs: usize,
    /// The total satisfaction of each valid run, in the order of the runs.
    pub satisfactions: Vec<u64>,
    /// The computation time of each valid run, in the order of the runs.
    pub times: Vec<u128>,
    /// The sum of the total satisfactions of the valid runs.
    pub satisfaction_sum: u128,
    /// The sum of the numbers of visits of the valid runs.
    pub attractions_sum: u128,
    /// The sum of the total costs of the valid runs.
    pub cost_sum: u128,
}

/// The seed of run `run`: 13 times the run plus 7, wrapped to 64 bits.
pub open spec fn seed_for(run: usize) -> u64 {
    (run as u64).wrapping_mul(13).wrapping_add(7)
}

/// The total satisfactions of the valid ones among `results`.
pub open spec fn valid_satisfactions(results: Seq<Itinerary>, params: SolveParams) -> Seq<u64>
    decreases results.len(),
{
    if results.len() == 0 {
        Seq::empty()
    } else if is_valid(results.last(), params) {
        valid_satisfactions(results.drop_last(), params).push(results.last().total_satisfaction)
    } else {
        valid_satisfactions(results.drop_last(), params)
    }
}

/// The computation times of the valid ones among `results`.
pub open spec fn valid_times(results: Seq<Itinerary>, params: SolveParams) -> Seq<u128>
    decreases results.len(),
{
    if results.len() == 0 {
        Seq::empty()
    } else if is_valid(results.last(), params) {
        valid_times(results.drop_last(), params).push(results.last().computation_ms)
    } else {
        valid_times(results.drop_last(), params)
    }
}

/// The sum of the total satisfactions of the valid ones among `results`.
pub open spec fn valid_satisfaction_sum(results: Seq<Itinerary>, params: SolveParams) -> int
    decreases results.len(),
{
    if results.len() == 0 {
        0
    } else if is_valid(results.last(), params) {
        valid_satisfaction_sum(results.drop_last(), params) + results.last().total_satisfaction
    } else {
        valid_satisfaction_sum(results.drop_last(), params)
    }
}

/// The sum of the numbers of visits of the valid ones among `results`.
pub open spec fn valid_attractions_sum(results: Seq<Itinerary>, params: SolveParams) -> int
    decreases results.len(),
{
    if results.len() == 0 {
        0
    } else if is_valid(results.last(), params) {
        valid_attractions_sum(results.drop_last(), params) + results.last().total_attractions
    } else {
        valid_attractions_sum(results.drop_last(), params)
    }
}

/// The sum of the total costs of the valid ones among `results`.
pub open spec fn valid_cost_sum(results: Seq<Itinerary>, params: SolveParams) -> int
    decreases results.len(),
{
    if results.len() == 0 {
        0
    } else if is_valid(results.last(), params) {
        valid_cost_sum(results.drop_last(), params) + results.last().total_cost
    } else {
        valid_cost_sum(results.drop_last(), params)
    }
}

/// `stats` is what the valid ones among `results` amount to.
pub open spec fn summarizes(stats: ExperimentStats, results: Seq<Itinerary>, params: SolveParams) -> bool {
    &&& stats.satisfactions@ == valid_satisfactions(results, params)
    &&& stats.times@ == valid_times(results, params)
    &&& stats.valid_runs == stats.satisfactions@.len()
    &&& stats.satisfaction_sum == valid_satisfaction_sum(results, params)
    &&& stats.attractions_sum == valid_attractions_sum(results, params)
    &&& stats.cost_sum == valid_cost_sum(results, params)
}

impl ExperimentStats {
    /// The mean satisfaction of the valid runs, rounded down; zero where no
    /// run was valid.
    pub fn mean_satisfaction(&self) -> (mean: u128)
        ensures
            mean == if self.valid_runs == 0 {
                0
            } else {
                self.satisfaction_sum as int / self.valid_runs as int
            },
    {
        if self.valid_runs > 0 {
            self.satisfaction_sum / self.valid_runs as u128
        } else {
            0
        }
    }

    /// The mean number of visits of the valid runs, rounded down; zero
    /// where no run was valid.
    pub fn mean_attractions(&self) -> (mean: u128)
        ensures
            mean == if self.valid_runs == 0 {
                0
            } else {
                self.attractions_sum as int / self.valid_runs as int
            },
    {
        if self.valid_runs > 0 {
            self.attractions_sum / self.valid_runs as u128
        } else {
            0
        }
    }

    /// The mean cost of the valid runs, rounded down; zero where no run was
    /// valid.
    pub fn mean_cost(&self) -> (mean: u128)
        ensures
            mean == if self.valid_runs == 0 {
                0
            } else {
                self.cost_sum as int / self.valid_runs as int
            },
    {
        if self.valid_runs > 0 {
            self.cost_sum / self.valid_runs as u128
        } else {
            0
        }
    }
}

/// Runs `algorithm` `n_runs` times, run `r` with the seed `seed_for(r)`,
/// and sums up the runs whose itinerary is valid.
pub fn run_experiments<F>(
    attractions: &Vec<Attraction>,
    distances: &DistanceTable,
    params: &SolveParams,
    n_runs: usize,
    algorithm: F,
) -> (stats: ExperimentStats) where
    F: Fn(&Vec<Attraction>, &DistanceTable, &SolveParams, u64) -> Itinerary,

    requires
        forall|seed: u64| call_requires(algorithm, (attractions, distances, params, seed)),
    ensures
        exists|results: Seq<Itinerary>|
            {
                &&& results.len() == n_runs
                &&& forall|r: int|
                    0 <= r < n_runs ==> call_ensures(
                        algorithm,
                        (attractions, distances, params, seed_for(r as usize)),
                        #[trigger] results[r],
                    )
                &&& #[trigger] summarizes(stats, results, *params)
            },
{
    let mut satisfactions: Vec<u64> = Vec::new();
    let mut times: Vec<u128> = Vec::new();
    let mut valid_count: usize = 0;
    let mut total_satisfaction: u128 = 0;
    let mut total_attractions: u128 = 0;
    let mut total_cost: u128 = 0;
    let ghost mut results: Seq<Itinerary> = Seq::empty();

    let mut run: usize = 0;
    while run < n_runs
        invariant
            run <= n_runs,
            forall|seed: u64| call_requires(algorithm, (attractions, distances, params, seed)),
            results.len() == run,
            forall|r: int|
                0 <= r < run ==> call_ensures(
                    algorithm,
                    (attractions, distances, params, seed_for(r as usize)),
                    #[trigger] results[r],
                ),
            satisfactions@ == valid_satisfactions(results, *params),
            times@ == valid_times(results, *params),
            valid_count == satisfactions@.len(),
            valid_count <= run,
            total_satisfaction == valid_satisfaction_sum(results, *params),
            total_attractions == valid_attractions_sum(results, *params),
            total_cost == valid_cost_sum(results, *params),
            total_satisfaction <= run * 0xFFFF_FFFF_FFFF_FFFF,
            total_attractions <= run * 0xFFFF_FFFF_FFFF_FFFF,
            total_cost <= run * 0xFFFF_FFFF_FFFF_FFFF,
        decreases n_runs - run,
    {
        let seed = (run as u64).wrapping_mul(13).wrapping_add(7);
        let itinerary = algorithm(attractions, distances, params, seed);
        proof {
            let before = results;
            results = results.push(itinerary);
            assert(results.drop_last() =~= before);
        }

        if verify_itinerary(&itinerary, params).is_ok() {
            satisfactions.push(itinerary.total_satisfaction);
            times.push(itinerary.computation_ms);
            total_satisfaction = total_satisfaction + itinerary.total_satisfaction as u128;
            total_attractions = total_attractions + itinerary.total_attractions as u128;
            total_cost = total_cost + itinerary.total_cost as u128;
            valid_count = valid_count + 1;
        }
        run = run + 1;
    }

    let stats = ExperimentStats {
        valid_runs: valid_count,
        satisfactions,
        times,
        satisfaction_sum: total_satisfaction,
        attractions_sum: total_attractions,
        cost_sum: total_cost,
    };
    proof {
        assert(summarizes(stats, results, *params));
    }
    stats
}

} // verus!
