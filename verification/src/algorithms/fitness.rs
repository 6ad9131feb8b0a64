//! The objective of the annealing search: the preferences of the visits that
//! an arrangement can make, less a penalty for every id that it cannot visit.

use std::collections::HashSet;
use vstd::prelude::*;
use crate::algorithms::chromosome::{
    genes, lemma_total_genes_bounds, lemma_total_genes_nonnegative, total_genes, Chromosome,
};
use crate::algorithms::planning::{find_attraction, has_id, index_of, lemma_index_of};
use crate::models::attraction::Attraction;
use crate::models::constraints::SolveParams;
use crate::utils::distance::{lemma_minutes_for_is_least, DistanceTable};

verus! {

/// The penalty for an id that the arrangement has held before: one.
pub const DUPLICATE_PENALTY: i128 = 1_000_000;

/// The penalty for a visit that does not fit the opening window: a half.
pub const WINDOW_PENALTY: i128 = 500_000;

/// The penalty for each money unit by which a fee exceeds the money that is
/// left: a fifth for each unit of the currency.
pub const BUDGET_PENALTY: i128 = 2_000;

/// The penalty for a visit that ends after the day's time: three tenths.
pub const DAILY_TIME_PENALTY: i128 = 300_000;

/// The largest number of ids in an arrangement whose fitness is computed.
pub const MAX_GENES: u64 = 0x1_0000_0000_0000;

/// A bound on the size of the fitness of `count` ids.
pub open spec fn fitness_bound(count: int) -> int {
    count * 0x1000_0000_0000_0000_0000
}

/// Where the replay of an arrangement stands: the time and place after the
/// last visit of the current day, the ids met so far, the fees paid, and the
/// fitness gathered.
pub struct Replay {
    pub now: int,
    pub place: int,
    pub seen: Set<u32>,
    pub spent: int,
    pub fitness: int,
}

/// The replay after it has met `id`. An id met before costs the duplicate
/// penalty; one that the catalog does not hold costs nothing; one whose visit
/// breaks a rule costs the penalty of the first rule broken, the window
/// before the money before the day's time; and a visit that breaks none is
/// made and adds its preference.
pub open spec fn fitness_step(
    catalog: Seq<Attraction>,
    distances: DistanceTable,
    params: SolveParams,
    r: Replay,
    id: u32,
) -> Replay {
    if r.seen.contains(id) {
        Replay {
            now: r.now,
            place: r.place,
            seen: r.seen,
            spent: r.spent,
            fitness: r.fitness - DUPLICATE_PENALTY,
        }
    } else if !has_id(catalog, id) {
        Replay {
            now: r.now,
            place: r.place,
            seen: r.seen.insert(id),
            spent: r.spent,
            fitness: r.fitness,
        }
    } else {
        let index = index_of(catalog, id);
        let a = catalog[index];
        let arrival = r.now + distances.minutes(r.place, index + 1);
        let departure = arrival + a.duration;
        let penalty = if arrival < a.open_time || departure > a.close_time {
            WINDOW_PENALTY as int
        } else if r.spent + a.fee > params.total_budget {
            BUDGET_PENALTY * (r.spent + a.fee - params.total_budget)
        } else if departure - params.start_time > params.daily_time_budget {
            DAILY_TIME_PENALTY as int
        } else {
            0
        };
        if penalty > 0 {
            Replay {
                now: r.now,
                place: r.place,
                seen: r.seen.insert(id),
                spent: r.spent,
                fitness: r.fitness - penalty,
            }
        } else {
            Replay {
                now: departure,
                place: index + 1,
                seen: r.seen.insert(id),
                spent: r.spent + a.fee,
                fitness: r.fitness + a.preference,
            }
        }
    }
}

/// The replay after it has met `ids` in their order.
pub open spec fn fitness_day(
    catalog: Seq<Attraction>,
    distances: DistanceTable,
    params: SolveParams,
    r: Replay,
    ids: Seq<u32>,
) -> Replay
    decreases ids.len(),
{
    if ids.len() == 0 {
        r
    } else {
        fitness_step(
            catalog,
            distances,
            params,
            fitness_day(catalog, distances, params, r, ids.drop_last()),
            ids.last(),
        )
    }
}

/// The replay at the start of a day that follows `r`.
pub open spec fn next_day(params: SolveParams, r: Replay) -> Replay {
    Replay {
        now: params.start_time as int,
        place: 0,
        seen: r.seen,
        spent: r.spent,
        fitness: r.fitness,
    }
}

/// The replay after the days of `arrangement`, each begun at the start time
/// at place 0.
pub open spec fn fitness_days(
    catalog: Seq<Attraction>,
    distances: DistanceTable,
    params: SolveParams,
    arrangement: Seq<Seq<u32>>,
) -> Replay
    decreases arrangement.len(),
{
    if arrangement.len() == 0 {
        Replay {
            now: params.start_time as int,
            place: 0,
            seen: Set::empty(),
            spent: 0,
            fitness: 0,
        }
    } else {
        fitness_day(
            catalog,
            distances,
            params,
            next_day(params, fitness_days(catalog, distances, params, arrangement.drop_last())),
            arrangement.last(),
        )
    }
}

/// The fitness of `arrangement`, in millionths.
pub open spec fn fitness_of(
    catalog: Seq<Attraction>,
    distances: DistanceTable,
    params: SolveParams,
    arrangement: Seq<Seq<u32>>,
) -> int {
    fitness_days(catalog, distances, params, arrangement).fitness
}

/// Whether `chromosome` holds no more than `MAX_GENES` ids.
pub fn within_gene_limit(chromosome: &Chromosome) -> (within: bool)
    ensures
        within == (total_genes(genes(*chromosome)) <= MAX_GENES),
{
    let ghost arrangement = genes(*chromosome);
    let mut count: u64 = 0;
    let mut d: usize = 0;
    proof {
        assert(arrangement.take(0) =~= Seq::<Seq<u32>>::empty());
    }
    while d < chromosome.len()
        invariant
            arrangement == genes(*chromosome),
            d <= chromosome@.len(),
            count == total_genes(arrangement.take(d as int)),
            count <= MAX_GENES,
        decreases chromosome@.len() - d,
    {
        let len = chromosome[d].len();
        proof {
            assert(arrangement.take(d + 1).drop_last() =~= arrangement.take(d as int));
            assert(arrangement.take(d + 1).last() == chromosome@[d as int]@);
            lemma_total_genes_bounds(arrangement, d as int);
        }
        if len as u64 > MAX_GENES - count {
            return false;
        }
        count = count + len as u64;
        d = d + 1;
    }
    proof {
        assert(arrangement.take(d as int) =~= arrangement);
    }
    true
}

/// The fitness of `chromosome`.
pub fn evaluate_fitness(
    chromosome: &Chromosome,
    attractions: &Vec<Attraction>,
    distances: &DistanceTable,
    params: &SolveParams,
) -> (fitness: i128)
    requires
        distances.places() == attractions@.len() + 1,
        total_genes(genes(*chromosome)) <= MAX_GENES,
    ensures
        fitness == fitness_of(attractions@, *distances, *params, genes(*chromosome)),
        -fitness_bound(MAX_GENES as int) <= fitness <= fitness_bound(MAX_GENES as int),
{
    let n = attractions.len();
    let ghost arrangement = genes(*chromosome);
    let mut fitness: i128 = 0;
    let mut total_cost: u64 = 0;
    let mut seen: HashSet<u32> = HashSet::new();
    let ghost mut replay = fitness_days(attractions@, *distances, *params, arrangement.take(0));
    proof {
        lemma_total_genes_nonnegative(arrangement);
        assert(arrangement.take(0) =~= Seq::<Seq<u32>>::empty());
    }

    let mut d: usize = 0;
    while d < chromosome.len()
        invariant
            n == attractions@.len(),
            arrangement == genes(*chromosome),
            d <= chromosome@.len(),
            distances.places() == attractions@.len() + 1,
            total_genes(arrangement) <= MAX_GENES,
            replay == fitness_days(attractions@, *distances, *params, arrangement.take(d as int)),
            fitness == replay.fitness,
            total_cost == replay.spent,
            seen@ == replay.seen,
            total_cost <= params.total_budget,
            0 <= total_genes(arrangement.take(d as int)) <= total_genes(arrangement),
            -fitness_bound(total_genes(arrangement.take(d as int))) <= fitness <= fitness_bound(
                total_genes(arrangement.take(d as int)),
            ),
        decreases chromosome@.len() - d,
    {
        let day_attractions = &chromosome[d];
        let mut current_time = params.start_time;
        let mut current_place: usize = 0;
        let ghost start = next_day(*params, replay);
        let ghost done = total_genes(arrangement.take(d as int));
        proof {
            replay = start;
            lemma_total_genes_bounds(arrangement, d as int);
            assert(arrangement[d as int] == day_attractions@);
        }

        let mut g: usize = 0;
        while g < day_attractions.len()
            invariant
                n == attractions@.len(),
                g <= day_attractions@.len(),
                distances.places() == attractions@.len() + 1,
                replay == fitness_day(
                    attractions@,
                    *distances,
                    *params,
                    start,
                    day_attractions@.take(g as int),
                ),
                fitness == replay.fitness,
                total_cost == replay.spent,
                seen@ == replay.seen,
                current_time == replay.now,
                current_place == replay.place,
                current_place < distances.places(),
                params.start_time <= current_time,
                total_cost <= params.total_budget,
                0 <= done,
                done + day_attractions@.len() <= MAX_GENES,
                -fitness_bound(done + g) <= fitness <= fitness_bound(done + g),
            decreases day_attractions@.len() - g,
        {
            let attr_id = day_attractions[g];
            proof {
                assert(day_attractions@.take(g + 1).drop_last() =~= day_attractions@.take(g as int));
                assert(day_attractions@.take(g + 1).last() == attr_id);
                replay = fitness_step(attractions@, *distances, *params, replay, attr_id);
            }
            g = g + 1;

            // Duplicate penalty
            if !seen.insert(attr_id) {
                fitness = fitness - DUPLICATE_PENALTY;
                continue ;
            }
            let idx = match find_attraction(attractions, attr_id) {
                Some(idx) => idx,
                None => {
                    continue ;
                },
            };
            proof {
                lemma_index_of(attractions@, attr_id, idx as int);
                lemma_minutes_for_is_least(
                    distances.metres(current_place as int, idx + 1) as int,
                );
            }
            let attr = &attractions[idx];

            let travel_time = distances.travel_time(current_place, idx + 1);
            let arrival: u64 = current_time as u64 + travel_time as u64;
            let departure: u64 = arrival + attr.duration as u64;

            // Time window check
            if arrival < attr.open_time as u64 || departure > attr.close_time as u64 {
                fitness = fitness - WINDOW_PENALTY;
                continue ;
            }
            // Budget check

            if attr.fee > params.total_budget - total_cost {
                let excess: u64 = attr.fee - (params.total_budget - total_cost);
                fitness = fitness - BUDGET_PENALTY * (excess as i128);
                continue ;
            }
            // Daily time budget check

            let day_end: u64 = departure - params.start_time as u64;
            if day_end > params.daily_time_budget as u64 {
                fitness = fitness - DAILY_TIME_PENALTY;
                continue ;
            }
            // Valid visit - add preference

            fitness = fitness + attr.preference as i128;
            total_cost = total_cost + attr.fee;
            current_time = departure as u32;
            current_place = idx + 1;
        }

        proof {
            assert(day_attractions@.take(g as int) =~= day_attractions@);
            assert(arrangement.take(d + 1).drop_last() =~= arrangement.take(d as int));
            assert(arrangement.take(d + 1).last() == day_attractions@);
            if d + 1 < arrangement.len() {
                lemma_total_genes_bounds(arrangement, d + 1);
            } else {
                assert(arrangement.take(d + 1) =~= arrangement);
            }
        }
        d = d + 1;
    }
    proof {
        assert(arrangement.take(d as int) =~= arrangement);
    }
    fitness
}

} // verus!
