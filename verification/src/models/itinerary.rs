use vstd::prelude::*;
use crate::models::attraction::Category;

verus! {

/// One committed stop.
#[derive(Debug, Clone, Copy, PartialEq, Eq, Structural)]
pub struct Visit {
    pub attraction_id: u32,
    pub arrival_time: u32,
    pub departure_time: u32,
    pub fee: u64,
    pub preference: u32,
    pub category: Category,
}

/// The visits of one day, in the order in which they are made.
#[derive(Debug, Clone)]
pub struct DayPlan {
    pub day: u32,
    pub visits: Vec<Visit>,
    pub total_travel_time: u32,
    pub total_cost: u64,
    pub total_satisfaction: u64,
}

/// A sample of the annealing search: the best fitness seen when `iteration`
/// began, and the temperature then, in millionths.
#[derive(Debug, Clone, Copy, PartialEq, Eq, Structural)]
pub struct ConvergencePoint {
    pub iteration: u32,
    pub satisfaction: i128,
    pub temperature: u64,
}

#[derive(Debug, Clone)]
pub struct Itinerary {
    pub days: Vec<DayPlan>,
    pub total_satisfaction: u64,
    pub total_cost: u64,
    pub total_attractions: usize,
    pub algorithm_used: String,
    pub computation_ms: u128,
    pub convergence_data: Option<Vec<ConvergencePoint>>,
}

/// The sum of the fees of `visits`.
pub open spec fn sum_fees(visits: Seq<Visit>) -> int
    decreases visits.len(),
{
    if visits.len() == 0 {
        0
    } else {
        sum_fees(visits.drop_last()) + visits.last().fee
    }
}

/// The sum of the preferences of `visits`.
pub open spec fn sum_preferences(visits: Seq<Visit>) -> int
    decreases visits.len(),
{
    if visits.len() == 0 {
        0
    } else {
        sum_preferences(visits.drop_last()) + visits.last().preference
    }
}

/// The sum of the `total_cost` fields of `days`.
pub open spec fn sum_day_costs(days: Seq<DayPlan>) -> int
    decreases days.len(),
{
    if days.len() == 0 {
        0
    } else {
        sum_day_costs(days.drop_last()) + days.last().total_cost
    }
}

/// The sum of the `total_satisfaction` fields of `days`.
pub open spec fn sum_day_satisfactions(days: Seq<DayPlan>) -> int
    decreases days.len(),
{
    if days.len() == 0 {
        0
    } else {
        sum_day_satisfactions(days.drop_last()) + days.last().total_satisfaction
    }
}

/// The number of visits in `days`.
pub open spec fn count_visits(days: Seq<DayPlan>) -> int
    decreases days.len(),
{
    if days.len() == 0 {
        0
    } else {
        count_visits(days.drop_last()) + days.last().visits@.len()
    }
}

/// The sum of the fees of all visits in `days`.
pub open spec fn sum_all_fees(days: Seq<DayPlan>) -> int
    decreases days.len(),
{
    if days.len() == 0 {
        0
    } else {
        sum_all_fees(days.drop_last()) + sum_fees(days.last().visits@)
    }
}

/// The sum of the preferences of all visits in `days`.
pub open spec fn sum_all_preferences(days: Seq<DayPlan>) -> int
    decreases days.len(),
{
    if days.len() == 0 {
        0
    } else {
        sum_all_preferences(days.drop_last()) + sum_preferences(days.last().visits@)
    }
}

/// The sums over a prefix of `days` do not exceed the sums over all of them.
pub proof fn lemma_day_sums_grow(days: Seq<DayPlan>, n: int)
    requires
        0 <= n <= days.len(),
    ensures
        0 <= sum_day_costs(days.take(n)) <= sum_day_costs(days),
        0 <= sum_day_satisfactions(days.take(n)) <= sum_day_satisfactions(days),
        0 <= count_visits(days.take(n)) <= count_visits(days),
    decreases days.len() - n,
{
    if n == days.len() {
        assert(days.take(n) =~= days);
        lemma_day_sums_nonnegative(days);
    } else {
        lemma_day_sums_grow(days, n + 1);
        lemma_day_sums_nonnegative(days.take(n));
        assert(days.take(n + 1).drop_last() =~= days.take(n));
    }
}

proof fn lemma_day_sums_nonnegative(days: Seq<DayPlan>)
    ensures
        0 <= sum_day_costs(days),
        0 <= sum_day_satisfactions(days),
        0 <= count_visits(days),
    decreases days.len(),
{
    if days.len() > 0 {
        lemma_day_sums_nonnegative(days.drop_last());
    }
}

impl DayPlan {
    /// The day's totals are the sums over its visits.
    pub open spec fn totals_consistent(self) -> bool {
        &&& self.total_cost == sum_fees(self.visits@)
        &&& self.total_satisfaction == sum_preferences(self.visits@)
    }
}

impl Itinerary {
    /// The itinerary's totals are the sums over its days, and those the sums
    /// over their visits.
    pub open spec fn totals_consistent(self) -> bool {
        &&& self.total_cost == sum_day_costs(self.days@)
        &&& self.total_satisfaction == sum_day_satisfactions(self.days@)
        &&& self.total_attractions == count_visits(self.days@)
        &&& forall|d: int| 0 <= d < self.days@.len() ==> (#[trigger] self.days@[d]).totals_consistent()
    }

    pub fn empty(algorithm: String) -> (itinerary: Self)
        ensures
            itinerary.days@.len() == 0,
            itinerary.total_satisfaction == 0,
            itinerary.total_cost == 0,
            itinerary.total_attractions == 0,
            itinerary.algorithm_used == algorithm,
            itinerary.computation_ms == 0,
            itinerary.convergence_data.is_none(),
    {
        Itinerary {
            days: Vec::new(),
            total_satisfaction: 0,
            total_cost: 0,
            total_attractions: 0,
            algorithm_used: algorithm,
            computation_ms: 0,
            convergence_data: None,
        }
    }

    /// Recomputes the three totals from the day plans.
    pub fn compute_totals(&mut self)
        requires
            sum_day_costs(old(self).days@) <= u64::MAX,
            sum_day_satisfactions(old(self).days@) <= u64::MAX,
            count_visits(old(self).days@) <= usize::MAX,
        ensures
            final(self).total_cost == sum_day_costs(old(self).days@),
            final(self).total_satisfaction == sum_day_satisfactions(old(self).days@),
            final(self).total_attractions == count_visits(old(self).days@),
            final(self).days == old(self).days,
            final(self).algorithm_used == old(self).algorithm_used,
            final(self).computation_ms == old(self).computation_ms,
            final(self).convergence_data == old(self).convergence_data,
    {
        let mut satisfaction: u64 = 0;
        let mut cost: u64 = 0;
        let mut attractions: usize = 0;
        let mut i: usize = 0;
        while i < self.days.len()
            invariant
                i <= self.days@.len(),
                *self == *old(self),
                cost == sum_day_costs(self.days@.take(i as int)),
                satisfaction == sum_day_satisfactions(self.days@.take(i as int)),
                attractions == count_visits(self.days@.take(i as int)),
                sum_day_costs(self.days@) <= u64::MAX,
                sum_day_satisfactions(self.days@) <= u64::MAX,
                count_visits(self.days@) <= usize::MAX,
            decreases self.days@.len() - i,
        {
            proof {
                lemma_day_sums_grow(self.days@, i + 1);
                assert(self.days@.take(i + 1).drop_last() =~= self.days@.take(i as int));
            }
            let day = &self.days[i];
            satisfaction = satisfaction + day.total_satisfaction;
            cost = cost + day.total_cost;
            attractions = attractions + day.visits.len();
            i = i + 1;
        }
        proof {
            assert(self.days@.take(i as int) =~= self.days@);
        }
        self.total_satisfaction = satisfaction;
        self.total_cost = cost;
        self.total_attractions = attractions;
    }
}

} // verus!
