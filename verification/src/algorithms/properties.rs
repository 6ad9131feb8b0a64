//! What holds of every plan whose visits were feasible when they were made.

use vstd::prelude::*;
use crate::algorithms::planning::{
    all_visit_ids, day_state, earlier, has_id, in_plan, index_of, is_feasible_day,
    is_feasible_plan, is_feasible_step, is_first_with_id, lemma_all_visit_ids_has,
    lemma_visit_ids_has, PlanState,
};
use crate::models::attraction::Attraction;
use crate::models::constraints::SolveParams;
use crate::models::itinerary::{
    sum_all_fees, sum_all_preferences, sum_day_costs, sum_day_satisfactions, sum_fees, DayPlan,
    Itinerary, Visit,
};
use crate::utils::distance::{lemma_minutes_for_is_least, DistanceTable};
use crate::utils::feasibility::{day_is_fine, is_valid, no_repeats, repeats_at, timing_fault_at};

verus! {

/// The sums of fees are not negative.
pub proof fn lemma_fees_nonnegative(visits: Seq<Visit>)
    ensures
        0 <= sum_fees(visits),
    decreases visits.len(),
{
    if visits.len() > 0 {
        lemma_fees_nonnegative(visits.drop_last());
    }
}

pub proof fn lemma_all_fees_nonnegative(days: Seq<DayPlan>)
    ensures
        0 <= sum_all_fees(days),
    decreases days.len(),
{
    if days.len() > 0 {
        lemma_all_fees_nonnegative(days.drop_last());
        lemma_fees_nonnegative(days.last().visits@);
    }
}

/// What a feasible visit says of the attraction it goes to.
pub proof fn lemma_step_facts(
    catalog: Seq<Attraction>,
    distances: DistanceTable,
    params: SolveParams,
    state: PlanState,
    visit: Visit,
)
    requires
        is_feasible_step(catalog, distances, params, state, visit),
        0 <= state.now,
    ensures
        has_id(catalog, visit.attraction_id),
        is_first_with_id(catalog, visit.attraction_id, index_of(catalog, visit.attraction_id)),
        !state.visited.contains(visit.attraction_id),
        state.now <= visit.arrival_time,
        ({
            let a = catalog[index_of(catalog, visit.attraction_id)];
            &&& a.open_time <= visit.arrival_time
            &&& visit.departure_time == visit.arrival_time + a.duration
            &&& visit.departure_time <= a.close_time
            &&& visit.fee == a.fee
            &&& visit.preference == a.preference
            &&& visit.category == a.category
        }),
        state.spent + visit.fee <= params.total_budget,
        visit.departure_time - params.start_time <= params.daily_time_budget,
{
    let index = index_of(catalog, visit.attraction_id);
    lemma_minutes_for_is_least(distances.metres(state.place, index + 1) as int);
    lemma_minutes_for_is_least(distances.metres(index + 1, 0) as int);
}

/// No attraction is visited twice.
pub proof fn lemma_no_repeated_visits(
    catalog: Seq<Attraction>,
    distances: DistanceTable,
    params: SolveParams,
    days: Seq<DayPlan>,
)
    requires
        is_feasible_plan(catalog, distances, params, days),
    ensures
        no_repeats(days),
{
    reveal(is_feasible_day);
    assert forall|d: int, k: int| in_plan(days, d, k) implies !#[trigger] repeats_at(
        days,
        d,
        k,
    ) by {
        let visits = days[d].visits@;
        let visited = all_visit_ids(days.take(d));
        let state = day_state(catalog, params, visited, sum_all_fees(days.take(d)), visits.take(k));
        assert(is_feasible_step(catalog, distances, params, state, visits[k]));
        if repeats_at(days, d, k) {
            let (d0, k0) = choose|d0: int, k0: int|
                in_plan(days, d0, k0) && earlier(d0, k0, d, k) && (
                #[trigger] days[d0].visits@[k0]).attraction_id == visits[k].attraction_id;
            if d0 < d {
                assert(days.take(d)[d0] == days[d0]);
                lemma_all_visit_ids_has(days.take(d), d0, k0);
            } else {
                assert(visits.take(k)[k0] == visits[k0]);
                lemma_visit_ids_has(visits.take(k), k0);
            }
        }
    }
}

/// Every visit goes to an attraction of the catalog, begins when it is open
/// and lasts as long as it takes, ends before it closes, and carries its fee
/// and its preference.
pub open spec fn within_windows(catalog: Seq<Attraction>, days: Seq<DayPlan>) -> bool {
    forall|d: int, k: int|
        in_plan(days, d, k) ==> {
            let visit = #[trigger] days[d].visits@[k];
            let a = catalog[index_of(catalog, visit.attraction_id)];
            &&& has_id(catalog, visit.attraction_id)
            &&& a.id == visit.attraction_id
            &&& a.open_time <= visit.arrival_time
            &&& visit.departure_time == visit.arrival_time + a.duration
            &&& visit.arrival_time + a.duration <= a.close_time
            &&& visit.fee == a.fee
            &&& visit.preference == a.preference
        }
}

/// No visit costs anything.
pub open spec fn all_free(days: Seq<DayPlan>) -> bool {
    forall|d: int, k: int| in_plan(days, d, k) ==> (#[trigger] days[d].visits@[k]).fee == 0
}

/// Every visit of a feasible plan is within the window of its attraction.
pub proof fn lemma_visits_within_windows(
    catalog: Seq<Attraction>,
    distances: DistanceTable,
    params: SolveParams,
    days: Seq<DayPlan>,
)
    requires
        is_feasible_plan(catalog, distances, params, days),
    ensures
        within_windows(catalog, days),
{
    reveal(is_feasible_day);
    assert forall|d: int, k: int| in_plan(days, d, k) implies {
        let visit = #[trigger] days[d].visits@[k];
        let a = catalog[index_of(catalog, visit.attraction_id)];
        &&& has_id(catalog, visit.attraction_id)
        &&& a.id == visit.attraction_id
        &&& a.open_time <= visit.arrival_time
        &&& visit.departure_time == visit.arrival_time + a.duration
        &&& visit.arrival_time + a.duration <= a.close_time
        &&& visit.fee == a.fee
        &&& visit.preference == a.preference
    } by {
        let visits = days[d].visits@;
        let state = day_state(
            catalog,
            params,
            all_visit_ids(days.take(d)),
            sum_all_fees(days.take(d)),
            visits.take(k),
        );
        assert(is_feasible_step(catalog, distances, params, state, visits[k]));
        lemma_step_facts(catalog, distances, params, state, visits[k]);
    }
}

/// Within a day no visit ends before it begins, none begins before the one
/// before it has ended, and the day takes no longer than a day may.
pub proof fn lemma_days_are_fine(
    catalog: Seq<Attraction>,
    distances: DistanceTable,
    params: SolveParams,
    days: Seq<DayPlan>,
)
    requires
        is_feasible_plan(catalog, distances, params, days),
    ensures
        forall|d: int| 0 <= d < days.len() ==> day_is_fine(#[trigger] days[d], params),
{
    reveal(is_feasible_day);
    assert forall|d: int| 0 <= d < days.len() implies day_is_fine(#[trigger] days[d], params) by {
        let day = days[d];
        let visits = day.visits@;
        let visited = all_visit_ids(days.take(d));
        let spent = sum_all_fees(days.take(d));
        assert(is_feasible_day(catalog, distances, params, visited, spent, visits));
        assert forall|i: int| 0 <= i < visits.len() implies (#[trigger] timing_fault_at(
            day,
            i,
        )).is_none() by {
            let state = day_state(catalog, params, visited, spent, visits.take(i));
            assert(is_feasible_step(catalog, distances, params, state, visits[i]));
            lemma_step_facts(catalog, distances, params, state, visits[i]);
            if i > 0 {
                assert(visits.take(i).last() == visits[i - 1]);
            }
        }
        if visits.len() > 0 {
            let first = day_state(catalog, params, visited, spent, visits.take(0));
            assert(is_feasible_step(catalog, distances, params, first, visits[0]));
            lemma_step_facts(catalog, distances, params, first, visits[0]);
            let n = visits.len() - 1;
            let last = day_state(catalog, params, visited, spent, visits.take(n));
            assert(is_feasible_step(catalog, distances, params, last, visits[n]));
            lemma_step_facts(catalog, distances, params, last, visits[n]);
        }
    }
}

/// A plan without its last day is feasible too.
pub proof fn lemma_feasible_prefix(
    catalog: Seq<Attraction>,
    distances: DistanceTable,
    params: SolveParams,
    days: Seq<DayPlan>,
)
    requires
        is_feasible_plan(catalog, distances, params, days),
        days.len() > 0,
    ensures
        is_feasible_plan(catalog, distances, params, days.drop_last()),
{
    let rest = days.drop_last();
    assert forall|d: int| 0 <= d < rest.len() implies is_feasible_day(
        catalog,
        distances,
        params,
        all_visit_ids(rest.take(d)),
        sum_all_fees(rest.take(d)),
        (#[trigger] rest[d]).visits@,
    ) by {
        assert(rest.take(d) =~= days.take(d));
        assert(rest[d] == days[d]);
    }
}

/// The fees of all visits together are within the money budget.
pub proof fn lemma_fees_within_budget(
    catalog: Seq<Attraction>,
    distances: DistanceTable,
    params: SolveParams,
    days: Seq<DayPlan>,
)
    requires
        is_feasible_plan(catalog, distances, params, days),
    ensures
        0 <= sum_all_fees(days) <= params.total_budget,
    decreases days.len(),
{
    reveal(is_feasible_day);
    lemma_all_fees_nonnegative(days);
    if days.len() > 0 {
        let d = days.len() - 1;
        let visits = days[d].visits@;
        lemma_feasible_prefix(catalog, distances, params, days);
        lemma_fees_within_budget(catalog, distances, params, days.drop_last());
        assert(days.take(d) =~= days.drop_last());
        if visits.len() > 0 {
            let n = visits.len() - 1;
            let state = day_state(
                catalog,
                params,
                all_visit_ids(days.take(d)),
                sum_all_fees(days.take(d)),
                visits.take(n),
            );
            assert(is_feasible_step(catalog, distances, params, state, visits[n]));
            assert(visits.take(n) =~= visits.drop_last());
        }
    }
}

/// With no money, every visit is free.
pub proof fn lemma_no_money_no_fees(
    catalog: Seq<Attraction>,
    distances: DistanceTable,
    params: SolveParams,
    days: Seq<DayPlan>,
)
    requires
        is_feasible_plan(catalog, distances, params, days),
        params.total_budget == 0,
    ensures
        all_free(days),
{
    reveal(is_feasible_day);
    assert forall|d: int, k: int| in_plan(days, d, k) implies (#[trigger] days[d].visits@[k]).fee
        == 0 by {
        let visits = days[d].visits@;
        let state = day_state(
            catalog,
            params,
            all_visit_ids(days.take(d)),
            sum_all_fees(days.take(d)),
            visits.take(k),
        );
        assert(is_feasible_step(catalog, distances, params, state, visits[k]));
        lemma_all_fees_nonnegative(days.take(d));
        lemma_fees_nonnegative(visits.take(k));
    }
}

/// Totals that are consistent are the sums over all visits.
pub proof fn lemma_totals_are_sums(days: Seq<DayPlan>)
    requires
        forall|d: int| 0 <= d < days.len() ==> (#[trigger] days[d]).totals_consistent(),
    ensures
        sum_day_costs(days) == sum_all_fees(days),
        sum_day_satisfactions(days) == sum_all_preferences(days),
    decreases days.len(),
{
    if days.len() > 0 {
        let rest = days.drop_last();
        assert forall|d: int| 0 <= d < rest.len() implies (#[trigger] rest[d]).totals_consistent() by {
            assert(rest[d] == days[d]);
        }
        lemma_totals_are_sums(rest);
        assert(days[days.len() - 1].totals_consistent());
    }
}

/// An itinerary with a feasible plan and consistent totals is valid, its
/// totals are the sums of the fees and of the preferences of its visits, its
/// visits are within the windows of their attractions, and with no money all
/// of them are free.
pub proof fn lemma_feasible_plan_is_valid(
    catalog: Seq<Attraction>,
    distances: DistanceTable,
    params: SolveParams,
    itinerary: Itinerary,
)
    requires
        is_feasible_plan(catalog, distances, params, itinerary.days@),
        itinerary.totals_consistent(),
    ensures
        is_valid(itinerary, params),
        itinerary.total_cost == sum_all_fees(itinerary.days@),
        itinerary.total_cost <= params.total_budget,
        itinerary.total_satisfaction == sum_all_preferences(itinerary.days@),
        within_windows(catalog, itinerary.days@),
        params.total_budget == 0 ==> all_free(itinerary.days@),
{
    reveal(is_valid);
    lemma_visits_within_windows(catalog, distances, params, itinerary.days@);
    if params.total_budget == 0 {
        lemma_no_money_no_fees(catalog, distances, params, itinerary.days@);
    }
    lemma_no_repeated_visits(catalog, distances, params, itinerary.days@);
    lemma_days_are_fine(catalog, distances, params, itinerary.days@);
    lemma_fees_within_budget(catalog, distances, params, itinerary.days@);
    lemma_totals_are_sums(itinerary.days@);
}

} // verus!
