//! The constructive scheduler: day by day it commits, again and again, the
//! feasible attraction with the highest score until none is left.

use std::collections::HashSet;
use vstd::prelude::*;
use vstd::pervasive::unreached;
use vstd::seq_lib::group_to_multiset_ensures;
use crate::algorithms::properties::{
    all_free, lemma_feasible_plan_is_valid, lemma_totals_are_sums, within_windows,
};
use crate::utils::feasibility::is_valid;
use crate::algorithms::planning::{
    accepts, all_visit_ids, day_state, find_attraction, ids_of, index_of, is_feasible_day,
    is_feasible_plan, is_feasible_step, lemma_id_set_bound, lemma_ids_of, lemma_index_of,
    sum_travel, travel_to, visit_at, visit_ids, PlanState,
};
use crate::data_structures::interval_tree::{
    lemma_open_ids_members, lemma_position_in_range, open_ids, placed, position_for, Interval,
    IntervalTree,
};
use crate::data_structures::priority_queue::{
    heap_of, lemma_heap_of, lemma_root_is_largest, PriorityQueue,
};
use crate::models::attraction::Attraction;
use crate::models::constraints::SolveParams;
use crate::models::itinerary::{
    count_visits, sum_all_fees, sum_all_preferences, sum_day_costs, sum_day_satisfactions,
    sum_fees, sum_preferences, DayPlan, Itinerary, Visit,
};
use crate::utils::distance::{lemma_minutes_for_is_least, DistanceTable};

verus! {

/// The factor by which a score is scaled before it is rounded down.
pub const SCORE_SCALE: u64 = 0x1_0000_0000;

/// The score of a visit: its preference over the minutes of travel plus one.
pub open spec fn score_of(preference: u32, travel: int) -> int {
    (preference as int * SCORE_SCALE as int) / (travel + 1)
}

pub fn score(preference: u32, travel_time: u32) -> (s: u64)
    ensures
        s == score_of(preference, travel_time as int),
{
    assert(preference as int * 0x1_0000_0000 <= 0xFFFF_FFFF * 0x1_0000_0000) by (nonlinear_arith)
        requires
            preference <= 0xFFFF_FFFF,
    ;
    (preference as u64 * SCORE_SCALE) / (travel_time as u64 + 1)
}

/// A higher score means a higher preference for each minute of travel plus
/// one: rounding down never turns the order of two ratios around.
pub proof fn lemma_score_follows_ratio(p1: u32, t1: int, p2: u32, t2: int)
    requires
        0 <= t1,
        0 <= t2,
        score_of(p1, t1) > score_of(p2, t2),
    ensures
        p1 * (t2 + 1) > p2 * (t1 + 1),
{
    let scale = 0x1_0000_0000int;
    let a = p1 as int * scale;
    let b = t1 + 1;
    let c = p2 as int * scale;
    let d = t2 + 1;
    let q1 = a / b;
    let q2 = c / d;
    assert(score_of(p1, t1) == q1 && score_of(p2, t2) == q2);
    vstd::arithmetic::div_mod::lemma_fundamental_div_mod(a, b);
    vstd::arithmetic::div_mod::lemma_fundamental_div_mod(c, d);
    vstd::arithmetic::div_mod::lemma_mod_bound(a, b);
    vstd::arithmetic::div_mod::lemma_mod_bound(c, d);
    assert(a >= b * q1);
    assert(c < d * (q2 + 1)) by (nonlinear_arith)
        requires
            c == d * q2 + c % d,
            0 <= c % d < d,
    ;
    assert(a * d > c * b) by (nonlinear_arith)
        requires
            a >= b * q1,
            c < d * (q2 + 1),
            q1 >= q2 + 1,
            b > 0,
            d > 0,
            0 <= c,
            0 <= a,
    ;
    assert(p1 * d > p2 * b) by (nonlinear_arith)
        requires
            a * d > c * b,
            a == p1 as int * scale,
            c == p2 as int * scale,
            scale > 0,
    ;
}

/// The opening window of `attraction`, as the index holds it.
pub open spec fn window_of(attraction: Attraction) -> Interval {
    Interval { start: attraction.open_time, end: attraction.close_time, data: attraction.id }
}

/// The order in which the index holds the windows of `catalog`.
pub open spec fn index_for(catalog: Seq<Attraction>) -> Seq<Interval>
    decreases catalog.len(),
{
    if catalog.len() == 0 {
        Seq::empty()
    } else {
        placed(index_for(catalog.drop_last()), window_of(catalog.last()))
    }
}

/// The queue entries for those of `ids` that may be visited next, in the
/// order of `ids`: the score, then the id and the minutes of travel.
pub open spec fn candidate_entries(
    catalog: Seq<Attraction>,
    distances: DistanceTable,
    params: SolveParams,
    state: PlanState,
    ids: Seq<u32>,
) -> Seq<(u64, (u32, u32))>
    decreases ids.len(),
{
    if ids.len() == 0 {
        Seq::empty()
    } else {
        let rest = candidate_entries(catalog, distances, params, state, ids.drop_last());
        let id = ids.last();
        if accepts(catalog, distances, params, state, id) {
            let index = index_of(catalog, id);
            let travel = travel_to(distances, state, index);
            rest.push(
                (score_of(catalog[index].preference, travel) as u64, (id, travel as u32)),
            )
        } else {
            rest
        }
    }
}

/// The id that the scheduler commits next, with the minutes of travel to it:
/// the root of the heap of the candidates among the attractions that are
/// open at the time of `state`. `None` where there is no candidate.
pub open spec fn next_choice(
    catalog: Seq<Attraction>,
    distances: DistanceTable,
    params: SolveParams,
    state: PlanState,
) -> Option<(u32, u32)> {
    let heap = heap_of(
        candidate_entries(
            catalog,
            distances,
            params,
            state,
            open_ids(index_for(catalog), state.now as u32),
        ),
    );
    if heap.len() == 0 {
        None
    } else {
        Some(heap[0].1)
    }
}

/// `visit` is the visit that the scheduler commits in `state`.
pub open spec fn is_greedy_step(
    catalog: Seq<Attraction>,
    distances: DistanceTable,
    params: SolveParams,
    state: PlanState,
    visit: Visit,
) -> bool {
    match next_choice(catalog, distances, params, state) {
        Some((id, travel)) => visit == visit_at(catalog[index_of(catalog, id)], state.now + travel),
        None => false,
    }
}

/// `visits` is the day that the scheduler plans after `visited` and `spent`:
/// each visit is the one it commits after those before it, and after the last
/// there is no candidate.
#[verifier::opaque]
pub open spec fn is_greedy_day(
    catalog: Seq<Attraction>,
    distances: DistanceTable,
    params: SolveParams,
    visited: Set<u32>,
    spent: int,
    visits: Seq<Visit>,
) -> bool {
    &&& forall|k: int|
        0 <= k < visits.len() ==> is_greedy_step(
            catalog,
            distances,
            params,
            day_state(catalog, params, visited, spent, visits.take(k)),
            #[trigger] visits[k],
        )
    &&& next_choice(
        catalog,
        distances,
        params,
        day_state(catalog, params, visited, spent, visits),
    ).is_none()
}

/// `days` are the days that the scheduler plans one after the other.
pub open spec fn is_greedy_plan(
    catalog: Seq<Attraction>,
    distances: DistanceTable,
    params: SolveParams,
    days: Seq<DayPlan>,
) -> bool {
    &&& days.len() == params.num_days
    &&& forall|d: int|
        #![trigger days[d]]
        0 <= d < days.len() ==> {
            &&& days[d].day == d + 1
            &&& days[d].total_cost == sum_fees(days[d].visits@)
            &&& days[d].total_satisfaction == sum_preferences(days[d].visits@)
            &&& days[d].total_travel_time == sum_travel(params.start_time as int, days[d].visits@)
            &&& is_greedy_day(
                catalog,
                distances,
                params,
                all_visit_ids(days.take(d)),
                sum_all_fees(days.take(d)),
                days[d].visits@,
            )
        }
}

/// Every entry stands for an accepted id, with its score and travel time.
pub proof fn lemma_entries_accepted(
    catalog: Seq<Attraction>,
    distances: DistanceTable,
    params: SolveParams,
    state: PlanState,
    ids: Seq<u32>,
)
    ensures
        forall|k: int|
            0 <= k < candidate_entries(catalog, distances, params, state, ids).len() ==> {
                let e = #[trigger] candidate_entries(catalog, distances, params, state, ids)[k];
                &&& accepts(catalog, distances, params, state, e.1.0)
                &&& e.1.1 == travel_to(distances, state, index_of(catalog, e.1.0))
                &&& e.0 == score_of(catalog[index_of(catalog, e.1.0)].preference, e.1.1 as int)
                &&& ids.contains(e.1.0)
            },
    decreases ids.len(),
{
    if ids.len() > 0 {
        let rest_ids = ids.drop_last();
        lemma_entries_accepted(catalog, distances, params, state, rest_ids);
        let rest = candidate_entries(catalog, distances, params, state, rest_ids);
        let all = candidate_entries(catalog, distances, params, state, ids);
        let id = ids.last();
        assert forall|k: int| 0 <= k < all.len() implies {
            let e = #[trigger] all[k];
            &&& accepts(catalog, distances, params, state, e.1.0)
            &&& e.1.1 == travel_to(distances, state, index_of(catalog, e.1.0))
            &&& e.0 == score_of(catalog[index_of(catalog, e.1.0)].preference, e.1.1 as int)
            &&& ids.contains(e.1.0)
        } by {
            if k < rest.len() {
                assert(all[k] == rest[k]);
                let j = choose|j: int| 0 <= j < rest_ids.len() && rest_ids[j] == rest[k].1.0;
                assert(ids[j] == rest[k].1.0);
            } else {
                let index = index_of(catalog, id);
                let travel = travel_to(distances, state, index);
                lemma_minutes_for_is_least(distances.metres(state.place, index + 1) as int);
                lemma_score_fits(catalog[index].preference, travel);
                assert(ids[ids.len() - 1] == id);
            }
        }
    }
}

proof fn lemma_score_fits(preference: u32, travel: int)
    requires
        0 <= travel,
    ensures
        0 <= score_of(preference, travel) <= u64::MAX,
{
    assert(0 <= preference as int * 0x1_0000_0000 <= 0xFFFF_FFFF * 0x1_0000_0000)
        by (nonlinear_arith)
        requires
            0 <= preference <= 0xFFFF_FFFF,
    ;
    let n = preference as int * 0x1_0000_0000;
    assert(0 <= n / (travel + 1) <= n) by (nonlinear_arith)
        requires
            0 <= n,
            0 <= travel,
    ;
}


/// The index holds the windows of the catalog and nothing else.
pub proof fn lemma_index_members(catalog: Seq<Attraction>)
    ensures
        index_for(catalog).len() == catalog.len(),
        forall|j: int|
            0 <= j < catalog.len() ==> index_for(catalog).contains(window_of(#[trigger] catalog[j])),
        forall|k: int|
            #![trigger index_for(catalog)[k]]
            0 <= k < index_for(catalog).len() ==> exists|j: int|
                0 <= j < catalog.len() && window_of(#[trigger] catalog[j]) == index_for(catalog)[k],
    decreases catalog.len(),
{
    if catalog.len() > 0 {
        let rest = catalog.drop_last();
        lemma_index_members(rest);
        let before = index_for(rest);
        let window = window_of(catalog.last());
        let p = position_for(before, window.start);
        lemma_position_in_range(before, window.start);
        let after = index_for(catalog);
        assert(after == before.take(p).push(window) + before.skip(p));
        assert forall|j: int| 0 <= j < catalog.len() implies after.contains(
            window_of(#[trigger] catalog[j]),
        ) by {
            if j < rest.len() {
                assert(rest[j] == catalog[j]);
                let k = choose|k: int| 0 <= k < before.len() && before[k] == window_of(rest[j]);
                if k < p {
                    assert(after[k] == before[k]);
                } else {
                    assert(after[k + 1] == before[k]);
                }
            } else {
                assert(after[p] == window);
            }
        }
        assert forall|k: int| #![trigger after[k]] 0 <= k < after.len() implies exists|j: int|
            0 <= j < catalog.len() && window_of(#[trigger] catalog[j]) == after[k] by {
            if k == p {
                assert(window_of(catalog[catalog.len() - 1]) == after[k]);
            } else {
                let k0 = if k < p {
                    k
                } else {
                    k - 1
                };
                assert(after[k] == before[k0]);
                let j = choose|j: int|
                    0 <= j < rest.len() && window_of(#[trigger] rest[j]) == before[k0];
                assert(window_of(catalog[j]) == after[k]);
            }
        }
    }
}

/// Whether an attraction with `id` is open at the time of `state` and may be
/// visited next.
pub open spec fn is_candidate(
    catalog: Seq<Attraction>,
    distances: DistanceTable,
    params: SolveParams,
    state: PlanState,
    id: u32,
) -> bool {
    &&& exists|j: int|
        0 <= j < catalog.len() && (#[trigger] catalog[j]).id == id && catalog[j].open_at(state.now)
    &&& accepts(catalog, distances, params, state, id)
}

/// The score with which the attraction with `id` stands in the queue.
pub open spec fn candidate_score(
    catalog: Seq<Attraction>,
    distances: DistanceTable,
    state: PlanState,
    id: u32,
) -> int {
    let index = index_of(catalog, id);
    score_of(catalog[index].preference, travel_to(distances, state, index))
}

/// Every accepted id among `ids` has an entry.
proof fn lemma_entries_complete(
    catalog: Seq<Attraction>,
    distances: DistanceTable,
    params: SolveParams,
    state: PlanState,
    ids: Seq<u32>,
    id: u32,
)
    requires
        ids.contains(id),
        accepts(catalog, distances, params, state, id),
    ensures
        exists|k: int|
            0 <= k < candidate_entries(catalog, distances, params, state, ids).len() && (
            #[trigger] candidate_entries(catalog, distances, params, state, ids)[k]).1.0 == id,
    decreases ids.len(),
{
    let all = candidate_entries(catalog, distances, params, state, ids);
    let rest = candidate_entries(catalog, distances, params, state, ids.drop_last());
    if ids.last() == id {
        assert(all[all.len() - 1].1.0 == id);
    } else {
        let j = choose|j: int| 0 <= j < ids.len() && ids[j] == id;
        assert(ids.drop_last()[j] == id);
        lemma_entries_complete(catalog, distances, params, state, ids.drop_last(), id);
        let k = choose|k: int| 0 <= k < rest.len() && (#[trigger] rest[k]).1.0 == id;
        assert(all[k].1.0 == id);
    }
}

/// What the scheduler commits is a candidate, and no candidate has a higher
/// score; it commits nothing only where there is no candidate.
pub proof fn lemma_choice_is_best(
    catalog: Seq<Attraction>,
    distances: DistanceTable,
    params: SolveParams,
    state: PlanState,
)
    requires
        0 <= state.now <= u32::MAX,
    ensures
        match next_choice(catalog, distances, params, state) {
            Some((id, travel)) => {
                &&& is_candidate(catalog, distances, params, state, id)
                &&& travel == travel_to(distances, state, index_of(catalog, id))
                &&& forall|other: u32|
                    #[trigger] is_candidate(catalog, distances, params, state, other)
                        ==> candidate_score(catalog, distances, state, other) <= candidate_score(
                        catalog,
                        distances,
                        state,
                        id,
                    )
            },
            None => forall|other: u32|
                !#[trigger] is_candidate(catalog, distances, params, state, other),
        },
{
    broadcast use group_to_multiset_ensures;

    let now = state.now as u32;
    let index = index_for(catalog);
    let ids = open_ids(index, now);
    let entries = candidate_entries(catalog, distances, params, state, ids);
    let heap = heap_of(entries);
    lemma_heap_of(entries);
    lemma_entries_accepted(catalog, distances, params, state, ids);
    lemma_index_members(catalog);
    lemma_open_ids_members(index, now);

    assert forall|other: u32| #[trigger]
        is_candidate(catalog, distances, params, state, other) implies exists|e: int|
        0 <= e < heap.len() && (#[trigger] heap[e]).1.0 == other && heap[e].0 == candidate_score(
            catalog,
            distances,
            state,
            other,
        ) by {
        let j = choose|j: int|
            0 <= j < catalog.len() && (#[trigger] catalog[j]).id == other && catalog[j].open_at(
                state.now,
            );
        assert(index.contains(window_of(catalog[j])));
        let k = choose|k: int| 0 <= k < index.len() && index[k] == window_of(catalog[j]);
        assert(index[k].covers(now));
        assert(ids.contains(other));
        lemma_entries_complete(catalog, distances, params, state, ids, other);
        let k = choose|k: int| 0 <= k < entries.len() && (#[trigger] entries[k]).1.0 == other;
        assert(entries.contains(entries[k]));
        assert(heap.to_multiset().count(entries[k]) > 0);
        assert(heap.contains(entries[k]));
        let e = choose|e: int| 0 <= e < heap.len() && heap[e] == entries[k];
        assert(heap[e].1.0 == other);
    }

    if heap.len() > 0 {
        let (id, travel) = heap[0].1;
        assert(heap.to_multiset().count(heap[0]) > 0);
        assert(entries.contains(heap[0]));
        let k = choose|k: int| 0 <= k < entries.len() && entries[k] == heap[0];
        assert(accepts(catalog, distances, params, state, id));
        assert(ids.contains(id));
        let q = choose|q: int| 0 <= q < ids.len() && ids[q] == id;
        let w = choose|w: int|
            0 <= w < index.len() && (#[trigger] index[w]).covers(now) && index[w].data == ids[q];
        let j = choose|j: int|
            0 <= j < catalog.len() && window_of(#[trigger] catalog[j]) == index[w];
        assert(catalog[j].id == id && catalog[j].open_at(state.now));
        assert forall|other: u32| #[trigger]
            is_candidate(catalog, distances, params, state, other) implies candidate_score(
            catalog,
            distances,
            state,
            other,
        ) <= candidate_score(catalog, distances, state, id) by {
            let e = choose|e: int|
                0 <= e < heap.len() && (#[trigger] heap[e]).1.0 == other && heap[e].0
                    == candidate_score(catalog, distances, state, other);
            lemma_root_is_largest(heap, e);
        }
    }
}

/// Plans that make the same visits on each day have visited the same ids
/// and have the same sums.
pub proof fn lemma_same_visits_same_sums(a: Seq<DayPlan>, b: Seq<DayPlan>)
    requires
        a.len() == b.len(),
        forall|d: int| 0 <= d < a.len() ==> (#[trigger] a[d]).visits@ == b[d].visits@,
    ensures
        all_visit_ids(a) == all_visit_ids(b),
        sum_all_fees(a) == sum_all_fees(b),
        sum_all_preferences(a) == sum_all_preferences(b),
        count_visits(a) == count_visits(b),
    decreases a.len(),
{
    if a.len() > 0 {
        let ra = a.drop_last();
        let rb = b.drop_last();
        assert forall|d: int| 0 <= d < ra.len() implies (#[trigger] ra[d]).visits@
            == rb[d].visits@ by {
            assert(ra[d] == a[d]);
            assert(rb[d] == b[d]);
        }
        lemma_same_visits_same_sums(ra, rb);
        assert(a[a.len() - 1].visits@ == b[a.len() - 1].visits@);
    }
}

/// There is one day that the scheduler plans after `visited` and `spent`.
pub proof fn lemma_greedy_day_is_determined(
    catalog: Seq<Attraction>,
    distances: DistanceTable,
    params: SolveParams,
    visited: Set<u32>,
    spent: int,
    x: Seq<Visit>,
    y: Seq<Visit>,
)
    requires
        is_greedy_day(catalog, distances, params, visited, spent, x),
        is_greedy_day(catalog, distances, params, visited, spent, y),
    ensures
        x == y,
{
    reveal(is_greedy_day);
    lemma_greedy_days_agree(catalog, distances, params, visited, spent, x, y, x.len() as int);
    lemma_greedy_days_agree(catalog, distances, params, visited, spent, y, x, y.len() as int);
    if x.len() <= y.len() {
        assert(x.take(x.len() as int) =~= x);
        if x.len() < y.len() {
            assert(is_greedy_step(
                catalog,
                distances,
                params,
                day_state(catalog, params, visited, spent, y.take(x.len() as int)),
                y[x.len() as int],
            ));
        } else {
            assert(y.take(x.len() as int) =~= y);
        }
    } else {
        assert(y.take(y.len() as int) =~= y);
        assert(is_greedy_step(
            catalog,
            distances,
            params,
            day_state(catalog, params, visited, spent, x.take(y.len() as int)),
            x[y.len() as int],
        ));
    }
}

/// Two days that the scheduler plans from the same start agree on their
/// first `n` visits, as far as the second has them.
proof fn lemma_greedy_days_agree(
    catalog: Seq<Attraction>,
    distances: DistanceTable,
    params: SolveParams,
    visited: Set<u32>,
    spent: int,
    x: Seq<Visit>,
    y: Seq<Visit>,
    n: int,
)
    requires
        is_greedy_day(catalog, distances, params, visited, spent, x),
        is_greedy_day(catalog, distances, params, visited, spent, y),
        0 <= n <= x.len(),
    ensures
        n <= y.len() ==> x.take(n) == y.take(n),
        n > y.len() ==> x.take(y.len() as int) == y,
    decreases n,
{
    reveal(is_greedy_day);
    if n == 0 {
        assert(x.take(0) =~= y.take(0));
    } else {
        lemma_greedy_days_agree(catalog, distances, params, visited, spent, x, y, n - 1);
        if n - 1 < y.len() {
            let state = day_state(catalog, params, visited, spent, x.take(n - 1));
            assert(is_greedy_step(catalog, distances, params, state, x[n - 1]));
            assert(is_greedy_step(
                catalog,
                distances,
                params,
                day_state(catalog, params, visited, spent, y.take(n - 1)),
                y[n - 1],
            ));
            assert(x.take(n) =~= x.take(n - 1).push(x[n - 1]));
            assert(y.take(n) =~= y.take(n - 1).push(y[n - 1]));
        } else if n - 1 == y.len() {
            assert(y.take(y.len() as int) =~= y);
        }
    }
}

/// Two plans of the scheduler for the same catalog, distances and limits
/// make the same visits on each of their first `n` days.
pub proof fn lemma_greedy_plans_agree(
    catalog: Seq<Attraction>,
    distances: DistanceTable,
    params: SolveParams,
    a: Seq<DayPlan>,
    b: Seq<DayPlan>,
    n: int,
)
    requires
        is_greedy_plan(catalog, distances, params, a),
        is_greedy_plan(catalog, distances, params, b),
        0 <= n <= a.len(),
    ensures
        forall|d: int| 0 <= d < n ==> (#[trigger] a[d]).visits@ == b[d].visits@,
    decreases n,
{
    if n > 0 {
        lemma_greedy_plans_agree(catalog, distances, params, a, b, n - 1);
        let d = n - 1;
        let ta = a.take(d);
        let tb = b.take(d);
        assert forall|j: int| 0 <= j < ta.len() implies (#[trigger] ta[j]).visits@
            == tb[j].visits@ by {
            assert(ta[j] == a[j]);
            assert(tb[j] == b[j]);
        }
        lemma_same_visits_same_sums(ta, tb);
        assert(is_greedy_day(
            catalog,
            distances,
            params,
            all_visit_ids(ta),
            sum_all_fees(ta),
            a[d].visits@,
        ));
        assert(is_greedy_day(
            catalog,
            distances,
            params,
            all_visit_ids(tb),
            sum_all_fees(tb),
            b[d].visits@,
        ));
        lemma_greedy_day_is_determined(
            catalog,
            distances,
            params,
            all_visit_ids(ta),
            sum_all_fees(ta),
            a[d].visits@,
            b[d].visits@,
        );
    }
}

/// The scheduler is deterministic: two itineraries that it plans for the same
/// catalog, distances and limits make the same visits on every day and have
/// the same totals.
pub proof fn lemma_greedy_is_deterministic(
    catalog: Seq<Attraction>,
    distances: DistanceTable,
    params: SolveParams,
    a: Itinerary,
    b: Itinerary,
)
    requires
        is_greedy_plan(catalog, distances, params, a.days@),
        is_greedy_plan(catalog, distances, params, b.days@),
        a.totals_consistent(),
        b.totals_consistent(),
    ensures
        a.days@.len() == b.days@.len(),
        forall|d: int|
            #![trigger a.days@[d]]
            0 <= d < a.days@.len() ==> {
                &&& a.days@[d].visits@ == b.days@[d].visits@
                &&& a.days@[d].day == b.days@[d].day
                &&& a.days@[d].total_cost == b.days@[d].total_cost
                &&& a.days@[d].total_satisfaction == b.days@[d].total_satisfaction
                &&& a.days@[d].total_travel_time == b.days@[d].total_travel_time
            },
        a.total_satisfaction == b.total_satisfaction,
        a.total_cost == b.total_cost,
        a.total_attractions == b.total_attractions,
{
    lemma_greedy_plans_agree(catalog, distances, params, a.days@, b.days@, a.days@.len() as int);
    lemma_same_visits_same_sums(a.days@, b.days@);
    lemma_totals_are_sums(a.days@);
    lemma_totals_are_sums(b.days@);
}

/// Plans `num_days` days over `attractions`. On each day, starting at
/// `start_time` at place 0, it asks the index for the attractions that are
/// open, keeps those that may be visited next, and commits the one with the
/// highest score, until none is left. What one day has visited, no later day
/// visits. The seed is not used.
pub fn solve(
    attractions: &Vec<Attraction>,
    distances: &DistanceTable,
    params: &SolveParams,
    _seed: u64,
) -> (itinerary: Itinerary)
    requires
        distances.places() == attractions@.len() + 1,
    ensures
        is_greedy_plan(attractions@, *distances, *params, itinerary.days@),
        is_feasible_plan(attractions@, *distances, *params, itinerary.days@),
        itinerary.totals_consistent(),
        is_valid(itinerary, *params),
        within_windows(attractions@, itinerary.days@),
        itinerary.total_cost == sum_all_fees(itinerary.days@),
        itinerary.total_cost <= params.total_budget,
        itinerary.total_satisfaction == sum_all_preferences(itinerary.days@),
        params.total_budget == 0 ==> all_free(itinerary.days@),
        itinerary.total_attractions <= 0x1_0000_0000,
        itinerary.algorithm_used@ == "greedy"@,
        itinerary.computation_ms == 0,
        itinerary.convergence_data.is_none(),
{
    let mut interval_tree = IntervalTree::new();
    let mut i: usize = 0;
    while i < attractions.len()
        invariant
            i <= attractions@.len(),
            interval_tree@ == index_for(attractions@.take(i as int)),
        decreases attractions@.len() - i,
    {
        let attr = &attractions[i];
        proof {
            assert(attractions@.take(i + 1).drop_last() =~= attractions@.take(i as int));
        }
        interval_tree.insert(Interval { start: attr.open_time, end: attr.close_time, data: attr.id });
        i = i + 1;
    }
    proof {
        assert(attractions@.take(i as int) =~= attractions@);
        lemma_ids_of(attractions@);
    }

    let mut visited: HashSet<u32> = HashSet::new();
    let mut days: Vec<DayPlan> = Vec::new();
    let mut total_cost: u64 = 0;

    let mut d: u32 = 0;
    while d < params.num_days
        invariant
            d <= params.num_days,
            days@.len() == d,
            distances.places() == attractions@.len() + 1,
            interval_tree@ == index_for(attractions@),
            visited@ == all_visit_ids(days@),
            visited@.finite(),
            visited@.subset_of(ids_of(attractions@)),
            visited@.len() == count_visits(days@),
            ids_of(attractions@).finite(),
            ids_of(attractions@).len() <= attractions@.len(),
            total_cost == sum_all_fees(days@),
            total_cost <= params.total_budget,
            sum_day_costs(days@) == sum_all_fees(days@),
            sum_day_satisfactions(days@) == sum_all_preferences(days@),
            sum_all_preferences(days@) <= count_visits(days@) * 0xFFFF_FFFF,
            forall|j: int|
                #![trigger days@[j]]
                0 <= j < days@.len() ==> {
                    &&& days@[j].day == j + 1
                    &&& days@[j].total_cost == sum_fees(days@[j].visits@)
                    &&& days@[j].total_satisfaction == sum_preferences(days@[j].visits@)
                    &&& days@[j].total_travel_time == sum_travel(
                        params.start_time as int,
                        days@[j].visits@,
                    )
                    &&& is_greedy_day(
                        attractions@,
                        *distances,
                        *params,
                        all_visit_ids(days@.take(j)),
                        sum_all_fees(days@.take(j)),
                        days@[j].visits@,
                    )
                    &&& is_feasible_day(
                        attractions@,
                        *distances,
                        *params,
                        all_visit_ids(days@.take(j)),
                        sum_all_fees(days@.take(j)),
                        days@[j].visits@,
                    )
                },
        decreases params.num_days - d,
    {
        let ghost before = days@;
        let day_plan = solve_day(
            d + 1,
            attractions,
            &interval_tree,
            distances,
            params,
            &mut visited,
            &mut total_cost,
        );
        days.push(day_plan);
        proof {
            assert(days@.drop_last() =~= before);
            assert(days@.take(d as int) =~= before);
            assert forall|j: int| 0 <= j < before.len() implies days@.take(j) =~= before.take(j)
                && days@[j] == before[j] by {}
            vstd::set_lib::lemma_len_subset(visited@, ids_of(attractions@));
        }
        d = d + 1;
    }

    proof {
        vstd::set_lib::lemma_len_subset(visited@, ids_of(attractions@));
        lemma_id_set_bound(visited@);
    }
    let mut itinerary = Itinerary {
        days,
        total_satisfaction: 0,
        total_cost,
        total_attractions: 0,
        algorithm_used: "greedy".to_string(),
        computation_ms: 0,
        convergence_data: None,
    };
    itinerary.compute_totals();
    proof {
        lemma_feasible_plan_is_valid(attractions@, *distances, *params, itinerary);
    }
    itinerary
}

/// Plans one day: the visits that the scheduler commits after what the days
/// before have visited and spent.
fn solve_day(
    day: u32,
    attractions: &Vec<Attraction>,
    interval_tree: &IntervalTree,
    distances: &DistanceTable,
    params: &SolveParams,
    visited: &mut HashSet<u32>,
    total_cost: &mut u64,
) -> (plan: DayPlan)
    requires
        distances.places() == attractions@.len() + 1,
        interval_tree@ == index_for(attractions@),
        *old(total_cost) <= params.total_budget,
        old(visited)@.finite(),
        old(visited)@.subset_of(ids_of(attractions@)),
    ensures
        plan.day == day,
        is_greedy_day(
            attractions@,
            *distances,
            *params,
            old(visited)@,
            *old(total_cost) as int,
            plan.visits@,
        ),
        is_feasible_day(
            attractions@,
            *distances,
            *params,
            old(visited)@,
            *old(total_cost) as int,
            plan.visits@,
        ),
        final(visited)@ == old(visited)@.union(visit_ids(plan.visits@)),
        final(visited)@.finite(),
        final(visited)@.subset_of(ids_of(attractions@)),
        final(visited)@.len() == old(visited)@.len() + plan.visits@.len(),
        *final(total_cost) == *old(total_cost) + sum_fees(plan.visits@),
        *final(total_cost) <= params.total_budget,
        plan.total_cost == sum_fees(plan.visits@),
        plan.total_satisfaction == sum_preferences(plan.visits@),
        plan.total_satisfaction <= plan.visits@.len() * 0xFFFF_FFFF,
        plan.total_travel_time == sum_travel(params.start_time as int, plan.visits@),
{
    let n = attractions.len();
    let mut visits: Vec<Visit> = Vec::new();
    let mut current_time = params.start_time;
    let mut current_place: usize = 0;
    let mut day_cost: u64 = 0;
    let mut day_satisfaction: u64 = 0;
    let mut travel_time_sum: u32 = 0;
    let ghost visited0 = visited@;
    let ghost spent0 = *total_cost as int;
    proof {
        lemma_ids_of(attractions@);
        assert(visited0.union(visit_ids(visits@)) =~= visited0);
    }

    loop
        invariant
            n == attractions@.len(),
            distances.places() == attractions@.len() + 1,
            interval_tree@ == index_for(attractions@),
            visited0 == old(visited)@,
            spent0 == *old(total_cost),
            ids_of(attractions@).finite(),
            current_time == day_state(attractions@, *params, visited0, spent0, visits@).now,
            current_place == day_state(attractions@, *params, visited0, spent0, visits@).place,
            visited@ == day_state(attractions@, *params, visited0, spent0, visits@).visited,
            *total_cost == day_state(attractions@, *params, visited0, spent0, visits@).spent,
            current_place < distances.places(),
            params.start_time <= current_time,
            *total_cost <= params.total_budget,
            visited@.finite(),
            visited@.subset_of(ids_of(attractions@)),
            visited@.len() == visited0.len() + visits@.len(),
            day_cost == sum_fees(visits@),
            day_satisfaction == sum_preferences(visits@),
            day_satisfaction <= visits@.len() * 0xFFFF_FFFF,
            travel_time_sum == sum_travel(params.start_time as int, visits@),
            travel_time_sum <= current_time - params.start_time,
            forall|k: int|
                0 <= k < visits@.len() ==> is_greedy_step(
                    attractions@,
                    *distances,
                    *params,
                    day_state(attractions@, *params, visited0, spent0, visits@.take(k)),
                    #[trigger] visits@[k],
                ),
            forall|k: int|
                0 <= k < visits@.len() ==> is_feasible_step(
                    attractions@,
                    *distances,
                    *params,
                    day_state(attractions@, *params, visited0, spent0, visits@.take(k)),
                    #[trigger] visits@[k],
                ),
        ensures
            next_choice(
                attractions@,
                *distances,
                *params,
                day_state(attractions@, *params, visited0, spent0, visits@),
            ).is_none(),
        decreases ids_of(attractions@).difference(visited@).len(),
    {
        let ghost state = day_state(attractions@, *params, visited0, spent0, visits@);
        let open_ids = interval_tree.query_open_at(current_time);
        let mut pq: PriorityQueue<(u32, u32)> = PriorityQueue::new();

        let mut i: usize = 0;
        while i < open_ids.len()
            invariant
                i <= open_ids@.len(),
                n == attractions@.len(),
                distances.places() == attractions@.len() + 1,
                state.now == current_time,
                state.place == current_place,
                state.visited == visited@,
                state.spent == *total_cost,
                current_place < distances.places(),
                params.start_time <= current_time,
                *total_cost <= params.total_budget,
                pq@ == heap_of(
                    candidate_entries(
                        attractions@,
                        *distances,
                        *params,
                        state,
                        open_ids@.take(i as int),
                    ),
                ),
            decreases open_ids@.len() - i,
        {
            let id = open_ids[i];
            let ghost seen = open_ids@.take(i as int);
            let ghost rest = candidate_entries(attractions@, *distances, *params, state, seen);
            proof {
                assert(open_ids@.take(i + 1).drop_last() =~= seen);
                assert(open_ids@.take(i + 1).last() == id);
            }
            if !visited.contains(&id) {
                if let Some(idx) = find_attraction(attractions, id) {
                    proof {
                        lemma_index_of(attractions@, id, idx as int);
                    }
                    let attr = &attractions[idx];

                    let travel_time = distances.travel_time(current_place, idx + 1);
                    let arrival: u64 = current_time as u64 + travel_time as u64;
                    let departure: u64 = arrival + attr.duration as u64;

                    if arrival >= attr.open_time as u64 && departure <= attr.close_time as u64 {
                        if attr.fee <= params.total_budget - *total_cost {
                            let return_time = distances.travel_time(idx + 1, 0);
                            let total_time_if_visit: u64 = departure + return_time as u64
                                - params.start_time as u64;

                            if total_time_if_visit <= params.daily_time_budget as u64 {
                                pq.push(score(attr.preference, travel_time), (id, travel_time));
                                proof {
                                    let entry = (
                                        score_of(attr.preference, travel_time as int) as u64,
                                        (id, travel_time),
                                    );
                                    assert(accepts(attractions@, *distances, *params, state, id));
                                    assert(candidate_entries(
                                        attractions@,
                                        *distances,
                                        *params,
                                        state,
                                        open_ids@.take(i + 1),
                                    ) == rest.push(entry));
                                    assert(rest.push(entry).drop_last() =~= rest);
                                }
                            }
                        }
                    }
                }
            }
            i = i + 1;
        }

        let ghost entries = candidate_entries(
            attractions@,
            *distances,
            *params,
            state,
            open_ids@,
        );
        let ghost heap = pq@;
        proof {
            assert(open_ids@.take(i as int) =~= open_ids@);
            lemma_heap_of(entries);
            lemma_entries_accepted(attractions@, *distances, *params, state, open_ids@);
        }

        match pq.pop() {
            Some((best_id, travel_time)) => {
                proof {
                    broadcast use group_to_multiset_ensures;

                    assert(heap.to_multiset().count(heap[0]) > 0);
                    assert(entries.contains(heap[0]));
                    let k = choose|k: int| 0 <= k < entries.len() && entries[k] == heap[0];
                    assert(entries[k].1 == (best_id, travel_time));
                    assert(accepts(attractions@, *distances, *params, state, best_id));
                }
                let idx = match find_attraction(attractions, best_id) {
                    Some(idx) => idx,
                    None => unreached(),
                };
                proof {
                    lemma_index_of(attractions@, best_id, idx as int);
                    lemma_ids_of(attractions@);
                    assert(ids_of(attractions@).contains(attractions@[idx as int].id));
                    ids_of(attractions@).lemma_set_insert_diff_decreases(visited@, best_id);
                    lemma_id_set_bound(visited@.insert(best_id));
                }
                let attr = &attractions[idx];

                let arrival = current_time + travel_time;
                let departure = arrival + attr.duration;

                let visit = Visit {
                    attraction_id: attr.id,
                    arrival_time: arrival,
                    departure_time: departure,
                    fee: attr.fee,
                    preference: attr.preference,
                    category: attr.category,
                };
                let ghost before = visits@;
                visits.push(visit);

                visited.insert(best_id);
                *total_cost = *total_cost + attr.fee;
                day_cost = day_cost + attr.fee;
                day_satisfaction = day_satisfaction + attr.preference as u64;
                travel_time_sum = travel_time_sum + travel_time;

                current_time = departure;
                current_place = idx + 1;

                proof {
                    assert(visits@.drop_last() =~= before);
                    assert(visits@.take(before.len() as int) =~= before);
                    assert(visited@ =~= visited0.union(visit_ids(visits@)));
                    assert forall|k: int| 0 <= k < before.len() implies visits@.take(k)
                        =~= before.take(k) && visits@[k] == before[k] by {}
                }
            },
            None => {
                break ;
            },
        }
    }

    proof {
        reveal(is_greedy_day);
        reveal(is_feasible_day);
    }
    DayPlan {
        day,
        visits,
        total_travel_time: travel_time_sum,
        total_cost: day_cost,
        total_satisfaction: day_satisfaction,
    }
}

} // verus!
