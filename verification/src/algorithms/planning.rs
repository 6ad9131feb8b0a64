//! What both schedulers share: the lookup of an attraction by its id, the
//! running state of a plan, and the rules that decide whether a visit may be
//! committed.

use vstd::prelude::*;
use vstd::set_lib::{lemma_len_subset, range_set_properties};
use crate::models::attraction::Attraction;
use crate::models::constraints::SolveParams;
use crate::models::itinerary::{sum_all_fees, sum_fees, DayPlan, Visit};
use crate::utils::distance::DistanceTable;

verus! {

/// `i` is the first index of `catalog` that holds an attraction with `id`.
pub open spec fn is_first_with_id(catalog: Seq<Attraction>, id: u32, i: int) -> bool {
    &&& 0 <= i < catalog.len()
    &&& catalog[i].id == id
    &&& forall|k: int| 0 <= k < i ==> (#[trigger] catalog[k]).id != id
}

/// Whether `catalog` holds an attraction with `id`.
pub open spec fn has_id(catalog: Seq<Attraction>, id: u32) -> bool {
    exists|i: int| is_first_with_id(catalog, id, i)
}

/// The first index of `catalog` that holds an attraction with `id`.
pub open spec fn index_of(catalog: Seq<Attraction>, id: u32) -> int {
    choose|i: int| is_first_with_id(catalog, id, i)
}

pub proof fn lemma_index_of(catalog: Seq<Attraction>, id: u32, i: int)
    requires
        is_first_with_id(catalog, id, i),
    ensures
        has_id(catalog, id),
        index_of(catalog, id) == i,
{
    let j = index_of(catalog, id);
    assert(is_first_with_id(catalog, id, j));
    if j < i {
        assert(catalog[j].id != id);
    }
    if i < j {
        assert(catalog[i].id != id);
    }
}

/// The ids that occur in `catalog`.
pub open spec fn ids_of(catalog: Seq<Attraction>) -> Set<u32>
    decreases catalog.len(),
{
    if catalog.len() == 0 {
        Set::empty()
    } else {
        ids_of(catalog.drop_last()).insert(catalog.last().id)
    }
}

pub proof fn lemma_ids_of(catalog: Seq<Attraction>)
    ensures
        ids_of(catalog).finite(),
        ids_of(catalog).len() <= catalog.len(),
        forall|i: int| 0 <= i < catalog.len() ==> ids_of(catalog).contains((#[trigger] catalog[i]).id),
    decreases catalog.len(),
{
    if catalog.len() > 0 {
        let rest = catalog.drop_last();
        lemma_ids_of(rest);
        assert forall|i: int| 0 <= i < catalog.len() implies ids_of(catalog).contains(
            (#[trigger] catalog[i]).id,
        ) by {
            if i < rest.len() {
                assert(rest[i] == catalog[i]);
            }
        }
    }
}

/// A set of ids has no more members than there are ids.
pub proof fn lemma_id_set_bound(s: Set<u32>)
    requires
        s.finite(),
    ensures
        s.len() <= 0x1_0000_0000,
{
    let below = Set::<u32>::range(0u32, u32::MAX);
    let all = below.insert(u32::MAX);
    range_set_properties::<u32>(0u32, u32::MAX);
    assert(!below.contains(u32::MAX));
    assert(all.len() == 0x1_0000_0000);
    assert(s.subset_of(all)) by {
        assert forall|x: u32| s.contains(x) implies all.contains(x) by {
            if x != u32::MAX {
                assert(below.contains(x));
            }
        }
    }
    lemma_len_subset(s, all);
}

/// The first attraction of `attractions` with `id`, by its index.
pub fn find_attraction(attractions: &Vec<Attraction>, id: u32) -> (found: Option<usize>)
    ensures
        match found {
            Some(i) => is_first_with_id(attractions@, id, i as int),
            None => !has_id(attractions@, id),
        },
{
    let mut i: usize = 0;
    while i < attractions.len()
        invariant
            i <= attractions@.len(),
            forall|k: int| 0 <= k < i ==> (#[trigger] attractions@[k]).id != id,
        decreases attractions@.len() - i,
    {
        if attractions[i].id == id {
            return Some(i);
        }
        i = i + 1;
    }
    proof {
        if has_id(attractions@, id) {
            let j = index_of(attractions@, id);
            assert(attractions@[j].id == id);
        }
    }
    None
}

/// The ids of `visits`.
pub open spec fn visit_ids(visits: Seq<Visit>) -> Set<u32>
    decreases visits.len(),
{
    if visits.len() == 0 {
        Set::empty()
    } else {
        visit_ids(visits.drop_last()).insert(visits.last().attraction_id)
    }
}

/// The ids of all visits of `days`.
pub open spec fn all_visit_ids(days: Seq<DayPlan>) -> Set<u32>
    decreases days.len(),
{
    if days.len() == 0 {
        Set::empty()
    } else {
        all_visit_ids(days.drop_last()).union(visit_ids(days.last().visits@))
    }
}

/// Where a plan stands: the time and place after the last visit of the
/// current day, the ids visited on any day, and the fees paid so far.
pub struct PlanState {
    pub now: int,
    pub place: int,
    pub visited: Set<u32>,
    pub spent: int,
}

/// The state of a day that began with `visited` and `spent` and has made
/// `visits`.
pub open spec fn day_state(
    catalog: Seq<Attraction>,
    params: SolveParams,
    visited: Set<u32>,
    spent: int,
    visits: Seq<Visit>,
) -> PlanState {
    PlanState {
        now: if visits.len() == 0 {
            params.start_time as int
        } else {
            visits.last().departure_time as int
        },
        place: if visits.len() == 0 {
            0
        } else {
            index_of(catalog, visits.last().attraction_id) + 1
        },
        visited: visited.union(visit_ids(visits)),
        spent: spent + sum_fees(visits),
    }
}

/// The minutes from the place of `state` to the attraction at `index`.
pub open spec fn travel_to(distances: DistanceTable, state: PlanState, index: int) -> int {
    distances.minutes(state.place, index + 1)
}

/// The hard rules for visiting `attraction`, which stands at `index` of the
/// catalog, next: the visit fits the opening window, its fee fits the money
/// that is left, and the day, with the trip back to the start, fits the daily
/// time.
pub open spec fn feasible(
    attraction: Attraction,
    index: int,
    distances: DistanceTable,
    params: SolveParams,
    state: PlanState,
) -> bool {
    let arrival = state.now + travel_to(distances, state, index);
    let departure = arrival + attraction.duration;
    &&& attraction.open_time <= arrival
    &&& departure <= attraction.close_time
    &&& state.spent + attraction.fee <= params.total_budget
    &&& departure + distances.minutes(index + 1, 0) - params.start_time <= params.daily_time_budget
}

/// Whether the attraction with `id` may be visited next: it is in the
/// catalog, has not been visited, and meets the hard rules.
pub open spec fn accepts(
    catalog: Seq<Attraction>,
    distances: DistanceTable,
    params: SolveParams,
    state: PlanState,
    id: u32,
) -> bool {
    &&& !state.visited.contains(id)
    &&& has_id(catalog, id)
    &&& feasible(catalog[index_of(catalog, id)], index_of(catalog, id), distances, params, state)
}

/// The visit to `attraction` that begins at `arrival`.
pub open spec fn visit_at(attraction: Attraction, arrival: int) -> Visit {
    Visit {
        attraction_id: attraction.id,
        arrival_time: arrival as u32,
        departure_time: (arrival + attraction.duration) as u32,
        fee: attraction.fee,
        preference: attraction.preference,
        category: attraction.category,
    }
}

/// `visit` is the visit to an accepted attraction, reached from the place of
/// `state` at the time of `state`.
pub open spec fn is_feasible_step(
    catalog: Seq<Attraction>,
    distances: DistanceTable,
    params: SolveParams,
    state: PlanState,
    visit: Visit,
) -> bool {
    let index = index_of(catalog, visit.attraction_id);
    &&& accepts(catalog, distances, params, state, visit.attraction_id)
    &&& visit == visit_at(catalog[index], state.now + travel_to(distances, state, index))
}

/// Every visit of the day was feasible when it was made.
#[verifier::opaque]
pub open spec fn is_feasible_day(
    catalog: Seq<Attraction>,
    distances: DistanceTable,
    params: SolveParams,
    visited: Set<u32>,
    spent: int,
    visits: Seq<Visit>,
) -> bool {
    forall|k: int|
        0 <= k < visits.len() ==> is_feasible_step(
            catalog,
            distances,
            params,
            day_state(catalog, params, visited, spent, visits.take(k)),
            #[trigger] visits[k],
        )
}

/// Every visit of the plan was feasible when it was made, each day starting
/// from what the days before it had visited and spent.
pub open spec fn is_feasible_plan(
    catalog: Seq<Attraction>,
    distances: DistanceTable,
    params: SolveParams,
    days: Seq<DayPlan>,
) -> bool {
    forall|d: int|
        0 <= d < days.len() ==> is_feasible_day(
            catalog,
            distances,
            params,
            all_visit_ids(days.take(d)),
            sum_all_fees(days.take(d)),
            (#[trigger] days[d]).visits@,
        )
}

/// The minutes spent between the visits of a day that starts at `start`.
pub open spec fn sum_travel(start: int, visits: Seq<Visit>) -> int
    decreases visits.len(),
{
    if visits.len() == 0 {
        0
    } else {
        let before = visits.drop_last();
        let from = if before.len() == 0 {
            start
        } else {
            before.last().departure_time as int
        };
        sum_travel(start, before) + (visits.last().arrival_time - from)
    }
}


/// Whether `days` holds a visit `k` on day `d`.
pub open spec fn in_plan(days: Seq<DayPlan>, d: int, k: int) -> bool {
    0 <= d < days.len() && 0 <= k < days[d].visits@.len()
}

/// Whether visit `k1` of day `d1` comes before visit `k2` of day `d2`.
pub open spec fn earlier(d1: int, k1: int, d2: int, k2: int) -> bool {
    d1 < d2 || (d1 == d2 && k1 < k2)
}

pub proof fn lemma_visit_ids_has(visits: Seq<Visit>, k: int)
    requires
        0 <= k < visits.len(),
    ensures
        visit_ids(visits).contains(visits[k].attraction_id),
    decreases visits.len(),
{
    if k < visits.len() - 1 {
        lemma_visit_ids_has(visits.drop_last(), k);
    }
}

pub proof fn lemma_visit_ids_find(visits: Seq<Visit>, id: u32) -> (k: int)
    requires
        visit_ids(visits).contains(id),
    ensures
        0 <= k < visits.len(),
        visits[k].attraction_id == id,
    decreases visits.len(),
{
    if visits.last().attraction_id == id {
        visits.len() - 1
    } else {
        lemma_visit_ids_find(visits.drop_last(), id)
    }
}

pub proof fn lemma_visit_ids_finite(visits: Seq<Visit>)
    ensures
        visit_ids(visits).finite(),
    decreases visits.len(),
{
    if visits.len() > 0 {
        lemma_visit_ids_finite(visits.drop_last());
    }
}

pub proof fn lemma_all_visit_ids_has(days: Seq<DayPlan>, d: int, k: int)
    requires
        in_plan(days, d, k),
    ensures
        all_visit_ids(days).contains(days[d].visits@[k].attraction_id),
    decreases days.len(),
{
    if d < days.len() - 1 {
        lemma_all_visit_ids_has(days.drop_last(), d, k);
    } else {
        lemma_visit_ids_has(days[d].visits@, k);
    }
}

pub proof fn lemma_all_visit_ids_find(days: Seq<DayPlan>, id: u32) -> (at: (int, int))
    requires
        all_visit_ids(days).contains(id),
    ensures
        in_plan(days, at.0, at.1),
        days[at.0].visits@[at.1].attraction_id == id,
    decreases days.len(),
{
    if visit_ids(days.last().visits@).contains(id) {
        let k = lemma_visit_ids_find(days.last().visits@, id);
        (days.len() - 1, k)
    } else {
        lemma_all_visit_ids_find(days.drop_last(), id)
    }
}

} // verus!
