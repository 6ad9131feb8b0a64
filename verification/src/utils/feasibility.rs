//! When an itinerary is valid, judged by its visits and the limits alone,
//! without the catalog.

use std::collections::HashSet;
use vstd::prelude::*;
use crate::algorithms::planning::{
    all_visit_ids, earlier, in_plan, lemma_all_visit_ids_find, lemma_all_visit_ids_has,
    lemma_visit_ids_find, lemma_visit_ids_has, visit_ids,
};
use crate::models::constraints::SolveParams;
use crate::models::itinerary::{DayPlan, Itinerary, Visit};

verus! {

/// What is wrong with an itinerary.
#[derive(Debug, Clone, Copy, PartialEq, Eq, Structural)]
pub enum Violation {
    /// The attraction is visited again on `day`.
    DuplicateVisit { attraction_id: u32, day: u32 },
    /// The visit ends before it begins.
    InvalidTimeRange { attraction_id: u32, arrival: u32, departure: u32 },
    /// The visit begins before the visit to `previous_id` has ended.
    Overlap { day: u32, attraction_id: u32, previous_id: u32 },
    /// From the first arrival to the last departure `day` takes `total_time`.
    DailyTimeExceeded { day: u32, total_time: u32, time_budget: u32 },
    /// The itinerary costs more than the money there is.
    BudgetExceeded { total_cost: u64, budget: u64 },
}

/// Whether an earlier visit of `days` goes to the attraction of visit `k` of
/// day `d`.
pub open spec fn repeats_at(days: Seq<DayPlan>, d: int, k: int) -> bool {
    exists|d0: int, k0: int|
        in_plan(days, d0, k0) && earlier(d0, k0, d, k) && (#[trigger] days[d0].visits@[k0]).attraction_id
            == days[d].visits@[k].attraction_id
}

/// No attraction is visited twice.
pub open spec fn no_repeats(days: Seq<DayPlan>) -> bool {
    forall|d: int, k: int| in_plan(days, d, k) ==> !#[trigger] repeats_at(days, d, k)
}

/// What is wrong with the times of visit `i` of `day`, if anything: first
/// its own range, then the overlap with the visit before it.
pub open spec fn timing_fault_at(day: DayPlan, i: int) -> Option<Violation> {
    let visit = day.visits@[i];
    if visit.arrival_time > visit.departure_time {
        Some(
            Violation::InvalidTimeRange {
                attraction_id: visit.attraction_id,
                arrival: visit.arrival_time,
                departure: visit.departure_time,
            },
        )
    } else if i > 0 && visit.arrival_time < day.visits@[i - 1].departure_time {
        Some(
            Violation::Overlap {
                day: day.day,
                attraction_id: visit.attraction_id,
                previous_id: day.visits@[i - 1].attraction_id,
            },
        )
    } else {
        None
    }
}

/// No visit of `day` has a fault in its times.
pub open spec fn well_timed(day: DayPlan) -> bool {
    forall|i: int| 0 <= i < day.visits@.len() ==> (#[trigger] timing_fault_at(day, i)).is_none()
}

/// The minutes from the first arrival of a day to its last departure.
pub open spec fn elapsed(visits: Seq<Visit>) -> int {
    if visits.len() == 0 {
        0
    } else {
        visits.last().departure_time - visits[0].arrival_time
    }
}

/// `day` is well timed and takes no longer than a day may.
pub open spec fn day_is_fine(day: DayPlan, params: SolveParams) -> bool {
    well_timed(day) && elapsed(day.visits@) <= params.daily_time_budget
}

/// A valid itinerary: no attraction is visited twice, no visit ends
/// before it begins or begins before the one before it has ended, no day
/// takes longer than a day may, and the total cost is within the budget.
#[verifier::opaque]
pub open spec fn is_valid(itinerary: Itinerary, params: SolveParams) -> bool {
    &&& no_repeats(itinerary.days@)
    &&& forall|d: int|
        0 <= d < itinerary.days@.len() ==> day_is_fine(#[trigger] itinerary.days@[d], params)
    &&& itinerary.total_cost <= params.total_budget
}

/// `violation` is the first thing wrong with `itinerary`: a repeated
/// visit, if there is one, and the first of them; else the first fault within
/// a day, days taken in their order and within a day the times of each visit
/// before the length of the day; else the total cost.
pub open spec fn is_first_violation(
    itinerary: Itinerary,
    params: SolveParams,
    violation: Violation,
) -> bool {
    let days = itinerary.days@;
    match violation {
        Violation::DuplicateVisit { attraction_id, day } => exists|d: int, k: int|
            {
                &&& in_plan(days, d, k)
                &&& #[trigger] repeats_at(days, d, k)
                &&& forall|d0: int, k0: int|
                    in_plan(days, d0, k0) && earlier(d0, k0, d, k) ==> !#[trigger] repeats_at(
                        days,
                        d0,
                        k0,
                    )
                &&& attraction_id == days[d].visits@[k].attraction_id
                &&& day == days[d].day
            },
        Violation::InvalidTimeRange { .. } | Violation::Overlap { .. } => {
            &&& no_repeats(days)
            &&& exists|d: int, i: int|
                {
                    &&& in_plan(days, d, i)
                    &&& forall|d0: int| 0 <= d0 < d ==> day_is_fine(#[trigger] days[d0], params)
                    &&& forall|i0: int| 0 <= i0 < i ==> (#[trigger] timing_fault_at(days[d], i0)).is_none()
                    &&& #[trigger] timing_fault_at(days[d], i) == Some(violation)
                }
        },
        Violation::DailyTimeExceeded { day, total_time, time_budget } => {
            &&& no_repeats(days)
            &&& exists|d: int|
                {
                    &&& 0 <= d < days.len()
                    &&& forall|d0: int| 0 <= d0 < d ==> day_is_fine(#[trigger] days[d0], params)
                    &&& well_timed(#[trigger] days[d])
                    &&& elapsed(days[d].visits@) > params.daily_time_budget
                    &&& day == days[d].day
                    &&& total_time == elapsed(days[d].visits@)
                    &&& time_budget == params.daily_time_budget
                }
        },
        Violation::BudgetExceeded { total_cost, budget } => {
            &&& no_repeats(days)
            &&& forall|d: int| 0 <= d < days.len() ==> day_is_fine(#[trigger] days[d], params)
            &&& itinerary.total_cost > params.total_budget
            &&& total_cost == itinerary.total_cost
            &&& budget == params.total_budget
        },
    }
}

/// In a well-timed day no visit begins after a later one has ended.
pub proof fn lemma_well_timed_order(day: DayPlan, i: int, j: int)
    requires
        well_timed(day),
        0 <= i <= j < day.visits@.len(),
    ensures
        day.visits@[i].arrival_time <= day.visits@[j].departure_time,
        day.visits@[i].arrival_time <= day.visits@[j].arrival_time,
    decreases j - i,
{
    assert(timing_fault_at(day, j).is_none());
    if i < j {
        lemma_well_timed_order(day, i, j - 1);
    }
}

/// Whether `itinerary` is valid under `params`, and if not, the first
/// violation.
pub fn verify_itinerary(itinerary: &Itinerary, params: &SolveParams) -> (verdict: Result<
    (),
    Violation,
>)
    ensures
        verdict.is_ok() <==> is_valid(*itinerary, *params),
        verdict matches Err(violation) ==> is_first_violation(*itinerary, *params, violation),
{
    proof {
        reveal(is_valid);
    }
    let ghost days = itinerary.days@;
    let mut seen_ids: HashSet<u32> = HashSet::new();

    let mut d: usize = 0;
    while d < itinerary.days.len()
        invariant
            days == itinerary.days@,
            d <= days.len(),
            seen_ids@ == all_visit_ids(days.take(d as int)),
            forall|d0: int, k0: int|
                in_plan(days, d0, k0) && d0 < d ==> !#[trigger] repeats_at(days, d0, k0),
        decreases days.len() - d,
    {
        let day = &itinerary.days[d];
        let ghost before = all_visit_ids(days.take(d as int));
        let mut k: usize = 0;
        proof {
            assert(before.union(visit_ids(day.visits@.take(0))) =~= before);
        }
        while k < day.visits.len()
            invariant
                days == itinerary.days@,
                d < days.len(),
                *day == days[d as int],
                k <= day.visits@.len(),
                before == all_visit_ids(days.take(d as int)),
                seen_ids@ == before.union(visit_ids(day.visits@.take(k as int))),
                forall|d0: int, k0: int|
                    in_plan(days, d0, k0) && earlier(d0, k0, d as int, k as int) ==> !#[trigger] repeats_at(
                        days,
                        d0,
                        k0,
                    ),
            decreases day.visits@.len() - k,
        {
            let visit = &day.visits[k];
            let ghost seen = seen_ids@;
            let fresh = seen_ids.insert(visit.attraction_id);
            proof {
                let id = visit.attraction_id;
                assert(day.visits@.take(k + 1).drop_last() =~= day.visits@.take(k as int));
                assert(seen_ids@ =~= before.union(visit_ids(day.visits@.take(k + 1))));
                if seen.contains(id) {
                    if before.contains(id) {
                        let at = lemma_all_visit_ids_find(days.take(d as int), id);
                        assert(days.take(d as int)[at.0] == days[at.0]);
                        assert(in_plan(days, at.0, at.1) && earlier(at.0, at.1, d as int, k as int));
                    } else {
                        let k0 = lemma_visit_ids_find(day.visits@.take(k as int), id);
                        assert(day.visits@.take(k as int)[k0] == day.visits@[k0]);
                        assert(in_plan(days, d as int, k0) && earlier(d as int, k0, d as int, k as int));
                    }
                    assert(repeats_at(days, d as int, k as int));
                } else {
                    if repeats_at(days, d as int, k as int) {
                        let (d0, k0) = choose|d0: int, k0: int|
                            in_plan(days, d0, k0) && earlier(d0, k0, d as int, k as int) && (
                            #[trigger] days[d0].visits@[k0]).attraction_id == id;
                        if d0 < d {
                            assert(days.take(d as int)[d0] == days[d0]);
                            lemma_all_visit_ids_has(days.take(d as int), d0, k0);
                        } else {
                            assert(day.visits@.take(k as int)[k0] == day.visits@[k0]);
                            lemma_visit_ids_has(day.visits@.take(k as int), k0);
                        }
                    }
                }
            }
            if !fresh {
                proof {
                    reveal(is_valid);
                }
                return Err(
                    Violation::DuplicateVisit { attraction_id: visit.attraction_id, day: day.day },
                );
            }
            k = k + 1;
        }
        proof {
            assert(day.visits@.take(k as int) =~= day.visits@);
            assert(days.take(d + 1).drop_last() =~= days.take(d as int));
        }
        d = d + 1;
    }
    assert(no_repeats(days));

    let mut d: usize = 0;
    while d < itinerary.days.len()
        invariant
            days == itinerary.days@,
            d <= days.len(),
            no_repeats(days),
            forall|d0: int| 0 <= d0 < d ==> day_is_fine(#[trigger] days[d0], *params),
        decreases days.len() - d,
    {
        let day = &itinerary.days[d];
        let mut i: usize = 0;
        while i < day.visits.len()
            invariant
                days == itinerary.days@,
                d < days.len(),
                *day == days[d as int],
                i <= day.visits@.len(),
                no_repeats(days),
                forall|d0: int| 0 <= d0 < d ==> day_is_fine(#[trigger] days[d0], *params),
                forall|i0: int| 0 <= i0 < i ==> (#[trigger] timing_fault_at(*day, i0)).is_none(),
            decreases day.visits@.len() - i,
        {
            let visit = &day.visits[i];

            if visit.arrival_time > visit.departure_time {
                let violation = Violation::InvalidTimeRange {
                    attraction_id: visit.attraction_id,
                    arrival: visit.arrival_time,
                    departure: visit.departure_time,
                };
                proof {
                    assert(timing_fault_at(days[d as int], i as int) == Some(violation));
                    assert(in_plan(days, d as int, i as int));
                    assert(!day_is_fine(days[d as int], *params));
                    reveal(is_valid);
                }
                return Err(violation);
            }
            if i > 0 {
                let prev = &day.visits[i - 1];
                if visit.arrival_time < prev.departure_time {
                    let violation = Violation::Overlap {
                        day: day.day,
                        attraction_id: visit.attraction_id,
                        previous_id: prev.attraction_id,
                    };
                    proof {
                        assert(timing_fault_at(days[d as int], i as int) == Some(violation));
                        assert(in_plan(days, d as int, i as int));
                        assert(!day_is_fine(days[d as int], *params));
                        reveal(is_valid);
                    }
                    return Err(violation);
                }
            }
            proof {
                assert(timing_fault_at(*day, i as int).is_none());
            }
            i = i + 1;
        }

        if !day.visits.is_empty() {
            let first_arrival = day.visits[0].arrival_time;
            let last_departure = day.visits[day.visits.len() - 1].departure_time;
            proof {
                lemma_well_timed_order(*day, 0, day.visits@.len() - 1);
            }
            let total_time = last_departure - first_arrival;

            if total_time > params.daily_time_budget {
                proof {
                    reveal(is_valid);
                }
                return Err(
                    Violation::DailyTimeExceeded {
                        day: day.day,
                        total_time,
                        time_budget: params.daily_time_budget,
                    },
                );
            }
        }
        d = d + 1;
    }

    if itinerary.total_cost > params.total_budget {
        return Err(
            Violation::BudgetExceeded {
                total_cost: itinerary.total_cost,
                budget: params.total_budget,
            },
        );
    }
    Ok(())
}

} // verus!
