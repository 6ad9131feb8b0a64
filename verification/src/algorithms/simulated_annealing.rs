//! The annealing refiner: it starts from the plan of the constructive
//! scheduler, changes it at random for as long as the temperature lasts, and
//! rebuilds a feasible plan from the best arrangement it has seen.

use std::collections::HashSet;
use rand::rngs::StdRng;
use rand::{Rng, RngCore, SeedableRng};
use vstd::prelude::*;
use crate::algorithms::chromosome::{
    arrangement_of, copy_chromosome, holds_id, insert_gene, itinerary_to_chromosome,
    lemma_arrangement_size, move_gene, swap_genes, total_genes,
};
use crate::algorithms::fitness::{evaluate_fitness, fitness_of};
use crate::algorithms::greedy::{is_greedy_plan, lemma_greedy_plans_agree};
use crate::algorithms::planning::earlier;
use crate::algorithms::properties::{all_free, lemma_feasible_plan_is_valid, within_windows};
use crate::data_structures::priority_queue::swapped;
use crate::models::itinerary::ConvergencePoint;
use crate::utils::feasibility::is_valid;
use crate::algorithms::planning::{
    accepts, all_visit_ids, day_state, find_attraction, ids_of, index_of, is_feasible_day,
    is_feasible_plan, is_feasible_step, lemma_id_set_bound, lemma_ids_of, lemma_index_of,
    sum_travel, travel_to, visit_at, visit_ids,
};
use crate::algorithms::chromosome::{genes, Chromosome};
use crate::models::attraction::Attraction;
use crate::models::constraints::SolveParams;
use crate::models::itinerary::{
    count_visits, sum_all_fees, sum_all_preferences, sum_day_costs, sum_day_satisfactions,
    sum_fees, sum_preferences, DayPlan, Itinerary, Visit,
};
use crate::utils::distance::DistanceTable;

verus! {

/// The visits that a day makes of `ids` after `visited` and `spent`: it
/// takes the ids in their order and visits each that may be visited when its
/// turn comes.
pub open spec fn replayed_day(
    catalog: Seq<Attraction>,
    distances: DistanceTable,
    params: SolveParams,
    visited: Set<u32>,
    spent: int,
    ids: Seq<u32>,
) -> Seq<Visit>
    decreases ids.len(),
{
    if ids.len() == 0 {
        Seq::empty()
    } else {
        let before = replayed_day(catalog, distances, params, visited, spent, ids.drop_last());
        let state = day_state(catalog, params, visited, spent, before);
        let id = ids.last();
        if accepts(catalog, distances, params, state, id) {
            let index = index_of(catalog, id);
            before.push(visit_at(catalog[index], state.now + travel_to(distances, state, index)))
        } else {
            before
        }
    }
}

/// `days` is the plan that replays `arrangement`: day `d` makes the visits
/// that it can make of the ids of `arrangement[d]` after the days before it.
pub open spec fn is_replay(
    catalog: Seq<Attraction>,
    distances: DistanceTable,
    params: SolveParams,
    arrangement: Seq<Seq<u32>>,
    days: Seq<DayPlan>,
) -> bool {
    &&& days.len() == arrangement.len()
    &&& forall|d: int|
        #![trigger days[d]]
        0 <= d < days.len() ==> {
            &&& days[d].day == d + 1
            &&& days[d].total_cost == sum_fees(days[d].visits@)
            &&& days[d].total_satisfaction == sum_preferences(days[d].visits@)
            &&& days[d].total_travel_time == sum_travel(params.start_time as int, days[d].visits@)
            &&& days[d].visits@ == replayed_day(
                catalog,
                distances,
                params,
                all_visit_ids(days.take(d)),
                sum_all_fees(days.take(d)),
                arrangement[d],
            )
        }
}

/// Every visit of a replayed day was feasible when it was made.
pub proof fn lemma_replayed_day_is_feasible(
    catalog: Seq<Attraction>,
    distances: DistanceTable,
    params: SolveParams,
    visited: Set<u32>,
    spent: int,
    ids: Seq<u32>,
)
    ensures
        is_feasible_day(
            catalog,
            distances,
            params,
            visited,
            spent,
            replayed_day(catalog, distances, params, visited, spent, ids),
        ),
    decreases ids.len(),
{
    reveal(is_feasible_day);
    if ids.len() > 0 {
        let before = replayed_day(catalog, distances, params, visited, spent, ids.drop_last());
        let visits = replayed_day(catalog, distances, params, visited, spent, ids);
        lemma_replayed_day_is_feasible(catalog, distances, params, visited, spent, ids.drop_last());
        assert forall|k: int| 0 <= k < visits.len() implies is_feasible_step(
            catalog,
            distances,
            params,
            day_state(catalog, params, visited, spent, visits.take(k)),
            #[trigger] visits[k],
        ) by {
            if k < before.len() {
                assert(visits.take(k) =~= before.take(k));
                assert(visits[k] == before[k]);
            } else {
                assert(visits.take(k) =~= before);
            }
        }
    }
}

/// The plan that replays `chromosome` under the hard rules: each day takes
/// its ids in their order and visits those that may be visited when their
/// turn comes; the others are dropped. The totals of the days are those of
/// their visits; of the totals of the itinerary only the cost is set.
pub fn build_itinerary(
    chromosome: &Chromosome,
    attractions: &Vec<Attraction>,
    distances: &DistanceTable,
    params: &SolveParams,
) -> (itinerary: Itinerary)
    requires
        distances.places() == attractions@.len() + 1,
        chromosome@.len() <= u32::MAX,
    ensures
        is_replay(attractions@, *distances, *params, genes(*chromosome), itinerary.days@),
        is_feasible_plan(attractions@, *distances, *params, itinerary.days@),
        itinerary.total_cost == sum_all_fees(itinerary.days@),
        itinerary.total_cost <= params.total_budget,
        itinerary.total_satisfaction == 0,
        itinerary.total_attractions == 0,
        itinerary.algorithm_used@ == "simulated_annealing"@,
        itinerary.computation_ms == 0,
        itinerary.convergence_data.is_none(),
        sum_day_costs(itinerary.days@) == sum_all_fees(itinerary.days@),
        sum_day_satisfactions(itinerary.days@) <= u64::MAX,
        count_visits(itinerary.days@) <= attractions@.len(),
{
    let n = attractions.len();
    let mut days: Vec<DayPlan> = Vec::new();
    let mut total_cost: u64 = 0;
    let mut visited: HashSet<u32> = HashSet::new();
    proof {
        lemma_ids_of(attractions@);
    }

    let mut day_num: usize = 0;
    while day_num < chromosome.len()
        invariant
            n == attractions@.len(),
            day_num <= chromosome@.len(),
            chromosome@.len() <= u32::MAX,
            days@.len() == day_num,
            distances.places() == attractions@.len() + 1,
            visited@ == all_visit_ids(days@),
            visited@.finite(),
            visited@.subset_of(ids_of(attractions@)),
            visited@.len() == count_visits(days@),
            ids_of(attractions@).finite(),
            ids_of(attractions@).len() <= attractions@.len(),
            total_cost == sum_all_fees(days@),
            total_cost <= params.total_budget,
            sum_day_costs(days@) == sum_all_fees(days@),
            sum_day_satisfactions(days@) == sum_all_preferences(days@),
            sum_all_preferences(days@) <= count_visits(days@) * 0xFFFF_FFFF,
            forall|j: int|
                #![trigger days@[j]]
                0 <= j < days@.len() ==> {
                    &&& days@[j].day == j + 1
                    &&& days@[j].total_cost == sum_fees(days@[j].visits@)
                    &&& days@[j].total_satisfaction == sum_preferences(days@[j].visits@)
                    &&& days@[j].total_travel_time == sum_travel(
                        params.start_time as int,
                        days@[j].visits@,
                    )
                    &&& days@[j].visits@ == replayed_day(
                        attractions@,
                        *distances,
                        *params,
                        all_visit_ids(days@.take(j)),
                        sum_all_fees(days@.take(j)),
                        chromosome@[j]@,
                    )
                    &&& is_feasible_day(
                        attractions@,
                        *distances,
                        *params,
                        all_visit_ids(days@.take(j)),
                        sum_all_fees(days@.take(j)),
                        days@[j].visits@,
                    )
                },
        decreases chromosome@.len() - day_num,
    {
        let day_attrs = &chromosome[day_num];
        let mut visits: Vec<Visit> = Vec::new();
        let mut current_time = params.start_time;
        let mut current_place: usize = 0;
        let mut day_cost: u64 = 0;
        let mut day_satisfaction: u64 = 0;
        let mut travel_time_sum: u32 = 0;
        let ghost visited0 = visited@;
        let ghost spent0 = total_cost as int;
        proof {
            assert(visited0.union(visit_ids(visits@)) =~= visited0);
        }

        let mut g: usize = 0;
        while g < day_attrs.len()
            invariant
                n == attractions@.len(),
                g <= day_attrs@.len(),
                0 <= spent0,
                distances.places() == attractions@.len() + 1,
                ids_of(attractions@).finite(),
                visits@ == replayed_day(
                    attractions@,
                    *distances,
                    *params,
                    visited0,
                    spent0,
                    day_attrs@.take(g as int),
                ),
                current_time == day_state(attractions@, *params, visited0, spent0, visits@).now,
                current_place == day_state(attractions@, *params, visited0, spent0, visits@).place,
                visited@ == day_state(attractions@, *params, visited0, spent0, visits@).visited,
                total_cost == day_state(attractions@, *params, visited0, spent0, visits@).spent,
                current_place < distances.places(),
                params.start_time <= current_time,
                total_cost <= params.total_budget,
                visited@.finite(),
                visited@.subset_of(ids_of(attractions@)),
                visited@.len() == visited0.len() + visits@.len(),
                day_cost == sum_fees(visits@),
                day_satisfaction == sum_preferences(visits@),
                day_satisfaction <= visits@.len() * 0xFFFF_FFFF,
                travel_time_sum == sum_travel(params.start_time as int, visits@),
                travel_time_sum <= current_time - params.start_time,
            decreases day_attrs@.len() - g,
        {
            let attr_id = day_attrs[g];
            let ghost state = day_state(attractions@, *params, visited0, spent0, visits@);
            proof {
                assert(day_attrs@.take(g + 1).drop_last() =~= day_attrs@.take(g as int));
                assert(day_attrs@.take(g + 1).last() == attr_id);
            }
            g = g + 1;
            let idx = match find_attraction(attractions, attr_id) {
                Some(idx) => idx,
                None => {
                    continue ;
                },
            };
            proof {
                lemma_index_of(attractions@, attr_id, idx as int);
            }
            let attr = &attractions[idx];

            let travel_time = distances.travel_time(current_place, idx + 1);
            let arrival: u64 = current_time as u64 + travel_time as u64;
            let departure: u64 = arrival + attr.duration as u64;

            // The hard rules.
            if visited.contains(&attr_id) {
                continue ;
            }
            if arrival < attr.open_time as u64 || departure > attr.close_time as u64 {
                continue ;
            }
            if attr.fee > params.total_budget - total_cost {
                continue ;
            }
            let return_time = distances.travel_time(idx + 1, 0);
            if departure + return_time as u64 - params.start_time as u64
                > params.daily_time_budget as u64 {
                continue ;
            }
            proof {
                assert(accepts(attractions@, *distances, *params, state, attr_id));
                lemma_ids_of(attractions@);
                assert(ids_of(attractions@).contains(attractions@[idx as int].id));
                lemma_id_set_bound(visited@.insert(attr_id));
            }

            let ghost before = visits@;
            visits.push(
                Visit {
                    attraction_id: attr.id,
                    arrival_time: arrival as u32,
                    departure_time: departure as u32,
                    fee: attr.fee,
                    preference: attr.preference,
                    category: attr.category,
                },
            );

            visited.insert(attr_id);
            total_cost = total_cost + attr.fee;
            day_cost = day_cost + attr.fee;
            day_satisfaction = day_satisfaction + attr.preference as u64;
            travel_time_sum = travel_time_sum + travel_time;
            current_time = departure as u32;
            current_place = idx + 1;

            proof {
                assert(visits@.drop_last() =~= before);
                assert(visited@ =~= visited0.union(visit_ids(visits@)));
            }
        }

        proof {
            assert(day_attrs@.take(g as int) =~= day_attrs@);
            lemma_replayed_day_is_feasible(
                attractions@,
                *distances,
                *params,
                visited0,
                spent0,
                day_attrs@,
            );
        }
        let ghost before = days@;
        days.push(
            DayPlan {
                day: (day_num + 1) as u32,
                visits,
                total_travel_time: travel_time_sum,
                total_cost: day_cost,
                total_satisfaction: day_satisfaction,
            },
        );
        proof {
            assert(days@.drop_last() =~= before);
            assert(days@.take(day_num as int) =~= before);
            assert forall|j: int| 0 <= j < before.len() implies days@.take(j) =~= before.take(j)
                && days@[j] == before[j] by {}
            vstd::set_lib::lemma_len_subset(visited@, ids_of(attractions@));
        }
        day_num = day_num + 1;
    }

    proof {
        vstd::set_lib::lemma_len_subset(visited@, ids_of(attractions@));
        lemma_id_set_bound(visited@);
    }
    Itinerary {
        days,
        total_satisfaction: 0,
        total_cost,
        total_attractions: 0,
        algorithm_used: "simulated_annealing".to_string(),
        computation_ms: 0,
        convergence_data: None,
    }
}


/// The temperature at which the search begins: one hundred, in millionths.
pub const INITIAL_TEMP: u64 = 100_000_000;

/// The temperature at which the search ends: a hundredth, in millionths.
pub const MIN_TEMP: u64 = 10_000;

/// Each iteration leaves 995 thousandths of the temperature.
pub const COOLING_RATE: u64 = 995;

/// The most iterations that the search makes.
pub const MAX_ITERATIONS: usize = 10_000;

/// The number of iterations from one sample of the trace to the next.
pub const TRACE_INTERVAL: usize = 50;

/// The temperature after `iterations` iterations.
pub open spec fn temperature_at(iterations: nat) -> int
    decreases iterations,
{
    if iterations == 0 {
        100_000_000
    } else {
        temperature_at((iterations - 1) as nat) * 995 / 1000
    }
}

/// The trace of `itinerary`; empty where it has none.
pub open spec fn trace_of(itinerary: Itinerary) -> Seq<ConvergencePoint> {
    match itinerary.convergence_data {
        Some(trace) => trace@,
        None => Seq::empty(),
    }
}

/// Whether the search makes another iteration after `iterations` of them.
pub open spec fn runs_after(iterations: nat) -> bool {
    temperature_at(iterations) > MIN_TEMP && iterations < MAX_ITERATIONS
}

/// The search makes `n` iterations.
pub open spec fn is_run_length(n: nat) -> bool {
    !runs_after(n) && forall|m: nat| m < n ==> #[trigger] runs_after(m)
}

/// `b` is `a` with two ids of one day exchanged.
pub open spec fn is_swap(a: Seq<Seq<u32>>, b: Seq<Seq<u32>>) -> bool {
    exists|day: int, i: int, j: int|
        0 <= day < a.len() && 0 <= i < a[day].len() && 0 <= j < a[day].len() && b == a.update(
            day,
            #[trigger] swapped(a[day], i, j),
        )
}

/// `b` is `a` with one id taken from a day and put at the end of another.
pub open spec fn is_move(a: Seq<Seq<u32>>, b: Seq<Seq<u32>>) -> bool {
    exists|from: int, idx: int, to: int|
        0 <= from < a.len() && 0 <= to < a.len() && from != to && 0 <= idx < a[from].len() && b
            == a.update(from, #[trigger] a[from].remove(idx)).update(
            to,
            #[trigger] a[to].push(a[from][idx]),
        )
}

/// `b` is `a` with an id of the catalog that `a` does not hold put at the
/// end of a day.
pub open spec fn is_insertion(catalog: Seq<Attraction>, a: Seq<Seq<u32>>, b: Seq<Seq<u32>>) -> bool {
    exists|day: int, at: int|
        0 <= day < a.len() && 0 <= at < catalog.len() && !holds_id(a, catalog[at].id) && b
            == a.update(day, #[trigger] a[day].push(catalog[at].id))
}

/// `b` is `a` itself or one change away from it.
pub open spec fn is_neighbour(catalog: Seq<Attraction>, a: Seq<Seq<u32>>, b: Seq<Seq<u32>>) -> bool {
    b == a || is_swap(a, b) || is_move(a, b) || is_insertion(catalog, a, b)
}

/// The ids of `catalog`, in its order, that are not in `held`.
pub open spec fn unvisited(catalog: Seq<Attraction>, held: Set<u32>) -> Seq<u32>
    decreases catalog.len(),
{
    if catalog.len() == 0 {
        Seq::empty()
    } else if held.contains(catalog.last().id) {
        unvisited(catalog.drop_last(), held)
    } else {
        unvisited(catalog.drop_last(), held).push(catalog.last().id)
    }
}

/// The ids that stand in `arrangement`.
pub open spec fn held_ids(arrangement: Seq<Seq<u32>>) -> Set<u32> {
    Set::new(|id: u32| holds_id(arrangement, id))
}

/// Whether `id` stands in `arrangement` before place `k` of day `d`.
pub open spec fn held_before(arrangement: Seq<Seq<u32>>, d: int, k: int, id: u32) -> bool {
    exists|d0: int, k0: int|
        0 <= d0 < arrangement.len() && 0 <= k0 < arrangement[d0].len() && earlier(d0, k0, d, k)
            && #[trigger] arrangement[d0][k0] == id
}

/// Every unvisited id is an id of the catalog that is not held.
pub proof fn lemma_unvisited_members(catalog: Seq<Attraction>, held: Set<u32>, j: int) -> (at: int)
    requires
        0 <= j < unvisited(catalog, held).len(),
    ensures
        0 <= at < catalog.len(),
        catalog[at].id == unvisited(catalog, held)[j],
        !held.contains(unvisited(catalog, held)[j]),
    decreases catalog.len(),
{
    let rest = unvisited(catalog.drop_last(), held);
    if j < rest.len() {
        lemma_unvisited_members(catalog.drop_last(), held, j)
    } else {
        catalog.len() - 1
    }
}

/// `rand::rngs::StdRng`, the generator from which the search draws.
#[verifier::external_type_specification]
#[verifier::external_body]
pub struct ExStdRng(StdRng);

/// `SeedableRng::seed_from_u64` of `StdRng`: a generator whose draws follow
/// from `seed`. Nothing is claimed of it.
#[verifier::external_body]
fn seeded_rng(seed: u64) -> StdRng {
    StdRng::seed_from_u64(seed)
}

/// `Rng::gen_range` on the range `0..bound`: a number below `bound`. It
/// panics on an empty range.
#[verifier::external_body]
fn random_below(rng: &mut StdRng, bound: usize) -> (r: usize)
    requires
        bound > 0,
    ensures
        r < bound,
{
    rng.gen_range(0..bound)
}

/// `RngCore::next_u64`: the next 64 bits of the generator. Nothing is claimed
/// of them.
#[verifier::external_body]
fn random_bits(rng: &mut StdRng) -> u64 {
    rng.next_u64()
}

/// The unvisited ids: those of `attractions`, in their order, that do not
/// stand in `chromosome`.
pub fn unvisited_ids(chromosome: &Chromosome, attractions: &Vec<Attraction>) -> (ids: Vec<u32>)
    ensures
        ids@ == unvisited(attractions@, held_ids(genes(*chromosome))),
{
    let ghost arrangement = genes(*chromosome);
    let mut visited: HashSet<u32> = HashSet::new();
    let mut d: usize = 0;
    while d < chromosome.len()
        invariant
            arrangement == genes(*chromosome),
            d <= chromosome@.len(),
            forall|id: u32| visited@.contains(id) <==> held_before(arrangement, d as int, 0, id),
        decreases chromosome@.len() - d,
    {
        let day = &chromosome[d];
        let mut k: usize = 0;
        while k < day.len()
            invariant
                arrangement == genes(*chromosome),
                d < chromosome@.len(),
                day@ == arrangement[d as int],
                k <= day@.len(),
                forall|id: u32|
                    visited@.contains(id) <==> held_before(arrangement, d as int, k as int, id),
            decreases day@.len() - k,
        {
            let ghost before = visited@;
            visited.insert(day[k]);
            proof {
                assert forall|id: u32| visited@.contains(id) <==> held_before(
                    arrangement,
                    d as int,
                    k + 1,
                    id,
                ) by {
                    if before.contains(id) {
                        assert(held_before(arrangement, d as int, k as int, id));
                    }
                    if id == day@[k as int] {
                        assert(arrangement[d as int][k as int] == id);
                    }
                }
            }
            k = k + 1;
        }
        proof {
            assert forall|id: u32| visited@.contains(id) <==> held_before(
                arrangement,
                d + 1,
                0,
                id,
            ) by {
                if visited@.contains(id) {
                    assert(held_before(arrangement, d as int, k as int, id));
                }
            }
        }
        d = d + 1;
    }
    proof {
        assert forall|id: u32| visited@.contains(id) <==> holds_id(arrangement, id) by {
            if visited@.contains(id) {
                assert(held_before(arrangement, d as int, 0, id));
            }
            if holds_id(arrangement, id) {
                let (d0, k0) = choose|d0: int, k0: int|
                    0 <= d0 < arrangement.len() && 0 <= k0 < arrangement[d0].len()
                        && #[trigger] arrangement[d0][k0] == id;
                assert(earlier(d0, k0, d as int, 0));
            }
        }
        assert(visited@ =~= held_ids(arrangement));
    }

    let mut ids: Vec<u32> = Vec::new();
    let mut i: usize = 0;
    while i < attractions.len()
        invariant
            i <= attractions@.len(),
            visited@ == held_ids(arrangement),
            ids@ == unvisited(attractions@.take(i as int), held_ids(arrangement)),
        decreases attractions@.len() - i,
    {
        let id = attractions[i].id;
        proof {
            assert(attractions@.take(i + 1).drop_last() =~= attractions@.take(i as int));
        }
        if !visited.contains(&id) {
            ids.push(id);
        }
        i = i + 1;
    }
    proof {
        assert(attractions@.take(i as int) =~= attractions@);
    }
    ids
}

/// Exchanges two ids, drawn at random, of a day drawn at random, if that
/// day holds two ids or more.
pub fn swap_within_day(chromosome: &mut Chromosome, rng: &mut StdRng)
    ensures
        genes(*final(chromosome)) == genes(*old(chromosome)) || is_swap(
            genes(*old(chromosome)),
            genes(*final(chromosome)),
        ),
        genes(*final(chromosome)).len() == genes(*old(chromosome)).len(),
        total_genes(genes(*final(chromosome))) == total_genes(genes(*old(chromosome))),
{
    if chromosome.is_empty() {
        return ;
    }
    let day_idx = random_below(rng, chromosome.len());
    let len = chromosome[day_idx].len();

    if len >= 2 {
        let i = random_below(rng, len);
        let j = random_below(rng, len);
        swap_genes(chromosome, day_idx, i, j);
        proof {
            let a = genes(*old(chromosome));
            assert(genes(*chromosome) == a.update(
                day_idx as int,
                swapped(a[day_idx as int], i as int, j as int),
            ));
        }
    }
}

/// Takes an id, drawn at random, from a day drawn at random and puts it at
/// the end of another day drawn at random; nothing changes where the two
/// days are one or the first holds no id.
pub fn move_between_days(chromosome: &mut Chromosome, rng: &mut StdRng)
    ensures
        genes(*final(chromosome)) == genes(*old(chromosome)) || is_move(
            genes(*old(chromosome)),
            genes(*final(chromosome)),
        ),
        genes(*final(chromosome)).len() == genes(*old(chromosome)).len(),
        total_genes(genes(*final(chromosome))) == total_genes(genes(*old(chromosome))),
{
    if chromosome.len() < 2 {
        return ;
    }
    let from_day = random_below(rng, chromosome.len());
    let to_day = random_below(rng, chromosome.len());

    if from_day != to_day && !chromosome[from_day].is_empty() {
        let idx = random_below(rng, chromosome[from_day].len());
        move_gene(chromosome, from_day, idx, to_day);
        proof {
            let a = genes(*old(chromosome));
            assert(genes(*chromosome) == a.update(
                from_day as int,
                a[from_day as int].remove(idx as int),
            ).update(to_day as int, a[to_day as int].push(a[from_day as int][idx as int])));
        }
    }
}

/// Puts an unvisited id, drawn at random, at the end of a day drawn at
/// random. Where there is an unvisited id and a day, an id is inserted,
/// whatever is drawn; where there is none, nothing changes.
pub fn insert_unvisited(
    chromosome: &mut Chromosome,
    attractions: &Vec<Attraction>,
    _params: &SolveParams,
    rng: &mut StdRng,
)
    ensures
        if unvisited(attractions@, held_ids(genes(*old(chromosome)))).len() > 0 && genes(
            *old(chromosome),
        ).len() > 0 {
            &&& is_insertion(attractions@, genes(*old(chromosome)), genes(*final(chromosome)))
            &&& total_genes(genes(*final(chromosome))) == total_genes(genes(*old(chromosome))) + 1
        } else {
            genes(*final(chromosome)) == genes(*old(chromosome))
        },
        genes(*final(chromosome)).len() == genes(*old(chromosome)).len(),
{
    let unvisited = unvisited_ids(chromosome, attractions);

    if !unvisited.is_empty() && !chromosome.is_empty() {
        let pick = random_below(rng, unvisited.len());
        let attr_id = unvisited[pick];
        let day_idx = random_below(rng, chromosome.len());
        insert_gene(chromosome, day_idx, attr_id);
        proof {
            let a = genes(*old(chromosome));
            let at = lemma_unvisited_members(attractions@, held_ids(a), pick as int);
            assert(genes(*chromosome) == a.update(
                day_idx as int,
                a[day_idx as int].push(attractions@[at].id),
            ));
        }
    }
}

/// A neighbour of `chromosome`: a copy changed in one of three ways, the way
/// drawn at random.
pub fn mutate(
    chromosome: &Chromosome,
    attractions: &Vec<Attraction>,
    params: &SolveParams,
    rng: &mut StdRng,
) -> (neighbour: Chromosome)
    ensures
        is_neighbour(attractions@, genes(*chromosome), genes(neighbour)),
        genes(neighbour).len() == genes(*chromosome).len(),
        total_genes(genes(neighbour)) <= total_genes(genes(*chromosome)) + 1,
{
    let mut new = copy_chromosome(chromosome);
    let mutation_type = random_below(rng, 3);

    if mutation_type == 0 {
        swap_within_day(&mut new, rng);
    } else if mutation_type == 1 {
        move_between_days(&mut new, rng);
    } else {
        insert_unvisited(&mut new, attractions, params, rng);
    }
    new
}

/// Refines the plan of the constructive scheduler. Beginning with that
/// plan's arrangement, each iteration draws a neighbour of the current
/// arrangement and moves to it if its fitness is no lower, or if
/// `accept_worse` says so of the loss, the temperature and 64 random bits. The
/// result replays the fittest arrangement met, so it is a feasible plan
/// whatever the search did. Every 50th iteration, the first included, leaves
/// a sample of the best fitness and the temperature in the trace.
pub fn solve<F: Fn(i128, u64, u64) -> bool>(
    attractions: &Vec<Attraction>,
    distances: &DistanceTable,
    params: &SolveParams,
    seed: u64,
    accept_worse: F,
) -> (itinerary: Itinerary)
    requires
        distances.places() == attractions@.len() + 1,
        forall|loss: i128, temperature: u64, bits: u64|
            loss < 0 && MIN_TEMP < temperature <= INITIAL_TEMP ==> call_requires(
                accept_worse,
                (loss, temperature, bits),
            ),
    ensures
        exists|best: Seq<Seq<u32>>|
            {
                &&& #[trigger] is_replay(attractions@, *distances, *params, best, itinerary.days@)
                &&& forall|plan: Seq<DayPlan>|
                    #[trigger] is_greedy_plan(attractions@, *distances, *params, plan) ==> fitness_of(
                        attractions@,
                        *distances,
                        *params,
                        best,
                    ) >= fitness_of(attractions@, *distances, *params, arrangement_of(plan))
                &&& forall|j: int|
                    0 <= j < trace_of(itinerary).len() ==> (#[trigger] trace_of(
                        itinerary,
                    )[j]).satisfaction <= fitness_of(attractions@, *distances, *params, best)
            },
        forall|plan: Seq<DayPlan>|
            #[trigger] is_greedy_plan(attractions@, *distances, *params, plan) ==> trace_of(
                itinerary,
            )[0].satisfaction >= fitness_of(
                attractions@,
                *distances,
                *params,
                arrangement_of(plan),
            ),
        exists|n: nat| #[trigger] is_run_length(n) && trace_of(itinerary).len() == (n + 49) / 50,
        itinerary.days@.len() == params.num_days,
        is_feasible_plan(attractions@, *distances, *params, itinerary.days@),
        itinerary.totals_consistent(),
        is_valid(itinerary, *params),
        within_windows(attractions@, itinerary.days@),
        itinerary.total_cost == sum_all_fees(itinerary.days@),
        itinerary.total_cost <= params.total_budget,
        itinerary.total_satisfaction == sum_all_preferences(itinerary.days@),
        params.total_budget == 0 ==> all_free(itinerary.days@),
        itinerary.algorithm_used@ == "simulated_annealing"@,
        itinerary.computation_ms == 0,
        itinerary.convergence_data.is_some(),
        trace_of(itinerary).len() >= 1,
        forall|j: int|
            0 <= j < trace_of(itinerary).len() ==> (#[trigger] trace_of(itinerary)[j]).iteration
                == 50 * j && trace_of(itinerary)[j].temperature == temperature_at((50 * j) as nat),
        forall|i: int, j: int|
            0 <= i <= j < trace_of(itinerary).len() ==> trace_of(itinerary)[i].satisfaction
                <= trace_of(itinerary)[j].satisfaction,
{
    let mut rng = seeded_rng(seed);

    // Get greedy initial solution
    let greedy_solution = crate::algorithms::greedy::solve(attractions, distances, params, seed);
    let mut best_chromosome = itinerary_to_chromosome(&greedy_solution);
    proof {
        lemma_arrangement_size(greedy_solution.days@);
    }
    let mut best_fitness = evaluate_fitness(&best_chromosome, attractions, distances, params);
    let ghost first_fitness = best_fitness;

    let mut current = copy_chromosome(&best_chromosome);
    let mut current_fitness = best_fitness;

    let mut temperature = INITIAL_TEMP;
    let mut convergence: Vec<ConvergencePoint> = Vec::new();
    let mut iteration: usize = 0;

    while temperature > MIN_TEMP && iteration < MAX_ITERATIONS
        invariant
            distances.places() == attractions@.len() + 1,
            forall|loss: i128, temperature: u64, bits: u64|
                loss < 0 && MIN_TEMP < temperature <= INITIAL_TEMP ==> call_requires(
                    accept_worse,
                    (loss, temperature, bits),
                ),
            iteration <= MAX_ITERATIONS,
            temperature == temperature_at(iteration as nat),
            temperature <= INITIAL_TEMP,
            genes(current).len() == params.num_days,
            genes(best_chromosome).len() == params.num_days,
            total_genes(genes(current)) <= 0x1_0000_0000 + iteration,
            total_genes(genes(best_chromosome)) <= 0x1_0000_0000 + iteration,
            current_fitness == fitness_of(attractions@, *distances, *params, genes(current)),
            best_fitness == fitness_of(attractions@, *distances, *params, genes(best_chromosome)),
            -crate::algorithms::fitness::fitness_bound(0x1_0000_0000_0000) <= current_fitness
                <= crate::algorithms::fitness::fitness_bound(0x1_0000_0000_0000),
            first_fitness <= best_fitness,
            forall|m: nat| m < iteration ==> #[trigger] runs_after(m),
            forall|j: int|
                0 <= j < convergence@.len() ==> first_fitness <= (#[trigger] convergence@[j]).satisfaction,
            convergence@.len() == (iteration + 49) / 50,
            forall|j: int|
                0 <= j < convergence@.len() ==> (#[trigger] convergence@[j]).iteration == 50 * j
                    && convergence@[j].temperature == temperature_at((50 * j) as nat)
                    && convergence@[j].satisfaction <= best_fitness,
            forall|i: int, j: int|
                0 <= i <= j < convergence@.len() ==> convergence@[i].satisfaction
                    <= convergence@[j].satisfaction,
        decreases MAX_ITERATIONS - iteration,
    {
        assert(runs_after(iteration as nat));
        // Generate neighbor
        let neighbor = mutate(&current, attractions, params, &mut rng);
        let neighbor_fitness = evaluate_fitness(&neighbor, attractions, distances, params);

        let delta = neighbor_fitness - current_fitness;

        // Accept or reject
        let accept = if delta > 0 {
            true
        } else {
            let bits = random_bits(&mut rng);
            delta == 0 || accept_worse(delta, temperature, bits)
        };

        if accept {
            current = neighbor;
            current_fitness = neighbor_fitness;

            if current_fitness > best_fitness {
                best_chromosome = copy_chromosome(&current);
                best_fitness = current_fitness;
            }
        }
        // Record convergence every 50 iterations

        if iteration % TRACE_INTERVAL == 0 {
            convergence.push(
                ConvergencePoint {
                    iteration: iteration as u32,
                    satisfaction: best_fitness,
                    temperature,
                },
            );
        }
        temperature = temperature * COOLING_RATE / 1000;
        iteration = iteration + 1;
    }

    assert(is_run_length(iteration as nat));
    let ghost first_sample = convergence@[0].satisfaction;
    // Convert best chromosome to itinerary
    let mut itinerary = build_itinerary(&best_chromosome, attractions, distances, params);
    assert(attractions@.len() <= usize::MAX) by {
        assert(attractions.len() == attractions@.len());
    }
    itinerary.convergence_data = Some(convergence);
    itinerary.compute_totals();
    proof {
        let best = genes(best_chromosome);
        lemma_feasible_plan_is_valid(attractions@, *distances, *params, itinerary);
        assert forall|plan: Seq<DayPlan>| #[trigger]
            is_greedy_plan(attractions@, *distances, *params, plan) implies fitness_of(
            attractions@,
            *distances,
            *params,
            best,
        ) >= fitness_of(attractions@, *distances, *params, arrangement_of(plan)) by {
            lemma_greedy_plans_agree(
                attractions@,
                *distances,
                *params,
                plan,
                greedy_solution.days@,
                plan.len() as int,
            );
            assert(arrangement_of(plan) =~= arrangement_of(greedy_solution.days@));
        }
        assert forall|plan: Seq<DayPlan>| #[trigger]
            is_greedy_plan(attractions@, *distances, *params, plan) implies first_sample
            >= fitness_of(attractions@, *distances, *params, arrangement_of(plan)) by {
            lemma_greedy_plans_agree(
                attractions@,
                *distances,
                *params,
                plan,
                greedy_solution.days@,
                plan.len() as int,
            );
            assert(arrangement_of(plan) =~= arrangement_of(greedy_solution.days@));
        }
        assert(is_replay(attractions@, *distances, *params, best, itinerary.days@));
    }
    itinerary
}

} // verus!
