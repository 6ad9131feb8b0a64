use std::cell::RefCell;
use std::collections::HashSet;
use tourism_optimizer::algorithms::chromosome::{
    copy_chromosome, insert_gene, itinerary_to_chromosome, move_gene, swap_genes,
};
use tourism_optimizer::algorithms::fitness::{evaluate_fitness, within_gene_limit};
use tourism_optimizer::algorithms::greedy;
use tourism_optimizer::algorithms::planning::find_attraction;
use tourism_optimizer::algorithms::simulated_annealing::{build_itinerary, solve, unvisited_ids};
use tourism_optimizer::models::attraction::{Attraction, Category};
use tourism_optimizer::models::constraints::SolveParams;
use tourism_optimizer::models::itinerary::{Itinerary, Visit};
use tourism_optimizer::utils::distance::DistanceTable;
use tourism_optimizer::utils::experiments::run_experiments;
use tourism_optimizer::utils::feasibility::verify_itinerary;

fn attraction(id: u32, preference: u32) -> Attraction {
    Attraction {
        id,
        name: format!("Attraction {}", id),
        open_time: 540,
        close_time: 1020,
        duration: 60,
        fee: 500,
        preference,
        category: Category::Museum,
    }
}

/// The start and the first attraction in one spot, the second 540 m away.
fn two_points() -> (Vec<Attraction>, DistanceTable) {
    let attractions = vec![attraction(1, 900_000), attraction(2, 800_000)];
    let table =
        DistanceTable::from_rows(vec![vec![0, 0, 540], vec![0, 0, 540], vec![540, 540, 0]]).unwrap();
    (attractions, table)
}

/// Five attractions, each 1 km from the start and from each other.
fn five_points() -> (Vec<Attraction>, DistanceTable) {
    let attractions = (1..=5).map(|id| attraction(id, 500_000 + id * 10_000)).collect();
    let rows = (0..6).map(|i| (0..6).map(|j| if i == j { 0 } else { 1000 }).collect()).collect();
    (attractions, DistanceTable::from_rows(rows).unwrap())
}

fn params(num_days: u32, total_budget: u64) -> SolveParams {
    SolveParams { num_days, daily_time_budget: 600, total_budget, start_time: 540 }
}

fn never(_loss: i128, _temperature: u64, _bits: u64) -> bool {
    false
}

fn always(_loss: i128, _temperature: u64, _bits: u64) -> bool {
    true
}

fn visited_ids(itinerary: &Itinerary) -> Vec<u32> {
    itinerary.days.iter().flat_map(|d| d.visits.iter().map(|v| v.attraction_id)).collect()
}

#[test]
fn test_score_is_preference_over_travel_plus_one() {
    assert_eq!(greedy::score(900_000, 0), 900_000u64 << 32);
    assert_eq!(greedy::score(800_000, 2), (800_000u64 << 32) / 3);
    assert_eq!(greedy::score(0, 5), 0);
    assert_eq!(greedy::score(u32::MAX, 0), (u32::MAX as u64) << 32);
    assert_eq!(greedy::score(1, u32::MAX), 1);
}

#[test]
fn test_find_attraction_gives_first_match() {
    let attractions = vec![attraction(4, 1), attraction(7, 2), attraction(4, 3)];
    assert_eq!(find_attraction(&attractions, 4), Some(0));
    assert_eq!(find_attraction(&attractions, 7), Some(1));
    assert_eq!(find_attraction(&attractions, 5), None);
    assert_eq!(find_attraction(&Vec::new(), 5), None);
}

#[test]
fn test_budget_for_one_takes_the_higher_score() {
    let (attractions, table) = two_points();
    let itinerary = greedy::solve(&attractions, &table, &params(1, 500), 42);

    assert_eq!(itinerary.total_attractions, 1);
    assert_eq!(itinerary.days.len(), 1);
    assert_eq!(
        itinerary.days[0].visits,
        vec![Visit {
            attraction_id: 1,
            arrival_time: 540,
            departure_time: 600,
            fee: 500,
            preference: 900_000,
            category: Category::Museum,
        }]
    );
    assert_eq!(itinerary.total_cost, 500);
    assert_eq!(itinerary.total_satisfaction, 900_000);
    assert_eq!(itinerary.algorithm_used, "greedy");
    assert_eq!(itinerary.computation_ms, 0);
    assert!(itinerary.convergence_data.is_none());
}

#[test]
fn test_distance_outweighs_preference() {
    let attractions = vec![attraction(1, 500_000), attraction(2, 900_000)];
    let table =
        DistanceTable::from_rows(vec![vec![0, 0, 540], vec![0, 0, 540], vec![540, 540, 0]]).unwrap();
    let itinerary = greedy::solve(&attractions, &table, &params(1, 500), 42);
    assert_eq!(visited_ids(&itinerary), vec![1]);
}

#[test]
fn test_greedy_plans_both_points_in_order() {
    let (attractions, table) = two_points();
    let itinerary = greedy::solve(&attractions, &table, &params(2, 1000), 42);

    assert_eq!(itinerary.days.len(), 2);
    assert_eq!(itinerary.days[0].day, 1);
    assert_eq!(itinerary.days[1].day, 2);
    let first = &itinerary.days[0];
    assert_eq!(first.visits.len(), 2);
    assert_eq!((first.visits[0].attraction_id, first.visits[0].arrival_time), (1, 540));
    assert_eq!(first.visits[0].departure_time, 600);
    assert_eq!((first.visits[1].attraction_id, first.visits[1].arrival_time), (2, 602));
    assert_eq!(first.visits[1].departure_time, 662);
    assert_eq!(first.total_travel_time, 2);
    assert_eq!(first.total_cost, 1000);
    assert_eq!(first.total_satisfaction, 1_700_000);
    assert!(itinerary.days[1].visits.is_empty());
    assert_eq!(itinerary.total_attractions, 2);
    assert_eq!(itinerary.total_cost, 1000);
    assert_eq!(itinerary.total_satisfaction, 1_700_000);
}

#[test]
fn test_five_days_five_points_each_once() {
    let (attractions, table) = five_points();
    let limits = params(5, 1_000_000);
    let itinerary = greedy::solve(&attractions, &table, &limits, 42);

    assert_eq!(itinerary.days.len(), 5);
    let mut ids = visited_ids(&itinerary);
    assert_eq!(ids.len(), 5);
    ids.sort();
    assert_eq!(ids, vec![1, 2, 3, 4, 5]);
    assert_eq!(itinerary.total_attractions, 5);
    assert!(verify_itinerary(&itinerary, &limits).is_ok());
}

#[test]
fn test_day_counts_the_trip_back() {
    let attractions = vec![attraction(1, 900_000)];
    let table = DistanceTable::from_rows(vec![vec![0, 5000], vec![5000, 0]]).unwrap();
    let fits = SolveParams { num_days: 1, daily_time_budget: 80, total_budget: 500, start_time: 540 };
    let tight = SolveParams { daily_time_budget: 79, ..fits };
    assert_eq!(visited_ids(&greedy::solve(&attractions, &table, &fits, 1)), vec![1]);
    assert!(visited_ids(&greedy::solve(&attractions, &table, &tight, 1)).is_empty());
}

#[test]
fn test_closed_points_are_not_candidates() {
    let mut late = attraction(1, 900_000);
    late.open_time = 600;
    let table = DistanceTable::from_rows(vec![vec![0, 0], vec![0, 0]]).unwrap();
    let itinerary = greedy::solve(&vec![late], &table, &params(1, 500), 1);
    assert!(visited_ids(&itinerary).is_empty());
}

#[test]
fn test_no_days_no_plan() {
    let (attractions, table) = two_points();
    let itinerary = greedy::solve(&attractions, &table, &params(0, 1000), 42);
    assert!(itinerary.days.is_empty());
    assert_eq!(itinerary.total_attractions, 0);
}

#[test]
fn test_seed_does_not_change_the_greedy_plan() {
    let (attractions, table) = five_points();
    let limits = params(2, 1500);
    let a = greedy::solve(&attractions, &table, &limits, 1);
    let b = greedy::solve(&attractions, &table, &limits, 2);
    assert_eq!(visited_ids(&a), visited_ids(&b));
    assert_eq!(a.total_cost, b.total_cost);
    assert_eq!(a.total_satisfaction, b.total_satisfaction);
}

#[test]
fn test_chromosome_of_itinerary() {
    let (attractions, table) = two_points();
    let itinerary = greedy::solve(&attractions, &table, &params(2, 1000), 42);
    assert_eq!(itinerary_to_chromosome(&itinerary), vec![vec![1, 2], vec![]]);
}

#[test]
fn test_chromosome_edits() {
    let mut chromosome = vec![vec![1, 2, 3], vec![4], vec![]];
    assert_eq!(copy_chromosome(&chromosome), chromosome);
    swap_genes(&mut chromosome, 0, 0, 2);
    assert_eq!(chromosome, vec![vec![3, 2, 1], vec![4], vec![]]);
    swap_genes(&mut chromosome, 0, 1, 1);
    assert_eq!(chromosome, vec![vec![3, 2, 1], vec![4], vec![]]);
    move_gene(&mut chromosome, 0, 1, 2);
    assert_eq!(chromosome, vec![vec![3, 1], vec![4], vec![2]]);
    insert_gene(&mut chromosome, 1, 9);
    assert_eq!(chromosome, vec![vec![3, 1], vec![4, 9], vec![2]]);
}

#[test]
fn test_unvisited_ids_in_catalog_order() {
    let (attractions, _) = five_points();
    assert_eq!(unvisited_ids(&vec![vec![4], vec![1, 9]], &attractions), vec![2, 3, 5]);
    assert_eq!(unvisited_ids(&vec![], &attractions), vec![1, 2, 3, 4, 5]);
    assert_eq!(unvisited_ids(&vec![vec![5, 4, 3, 2, 1]], &attractions), Vec::<u32>::new());
}

#[test]
fn test_fitness_of_feasible_visits_is_their_preference() {
    let (attractions, table) = two_points();
    let limits = params(1, 1000);
    assert_eq!(evaluate_fitness(&vec![vec![1, 2]], &attractions, &table, &limits), 1_700_000);
    assert_eq!(evaluate_fitness(&vec![vec![]], &attractions, &table, &limits), 0);
    assert_eq!(evaluate_fitness(&vec![], &attractions, &table, &limits), 0);
}

#[test]
fn test_fitness_penalties() {
    let (attractions, table) = two_points();
    let limits = params(1, 500);
    // 1 is visited; 2 is 500 over the budget; 1 again is a duplicate; 9 is unknown.
    assert_eq!(
        evaluate_fitness(&vec![vec![1, 2, 1, 9]], &attractions, &table, &limits),
        900_000 - 2_000 * 500 - 1_000_000
    );
    // A duplicate on a later day.
    assert_eq!(
        evaluate_fitness(&vec![vec![1], vec![1]], &attractions, &table, &limits),
        900_000 - 1_000_000
    );
    // An unknown id met twice is a duplicate the second time.
    assert_eq!(
        evaluate_fitness(&vec![vec![9, 9]], &attractions, &table, &limits),
        -1_000_000
    );
}

#[test]
fn test_fitness_window_and_daily_time_penalties() {
    let mut late = attraction(1, 900_000);
    late.open_time = 600;
    let table = DistanceTable::from_rows(vec![vec![0, 0], vec![0, 0]]).unwrap();
    assert_eq!(evaluate_fitness(&vec![vec![1]], &vec![late], &table, &params(1, 500)), -500_000);

    let short = SolveParams { num_days: 1, daily_time_budget: 59, total_budget: 500, start_time: 540 };
    assert_eq!(
        evaluate_fitness(&vec![vec![1]], &vec![attraction(1, 900_000)], &table, &short),
        -300_000
    );
}

#[test]
fn test_rebuild_drops_what_cannot_be_visited() {
    let (attractions, table) = two_points();
    let itinerary = build_itinerary(&vec![vec![2, 1, 1, 9]], &attractions, &table, &params(1, 1000));

    assert_eq!(itinerary.days.len(), 1);
    let visits = &itinerary.days[0].visits;
    assert_eq!(visits.len(), 2);
    assert_eq!((visits[0].attraction_id, visits[0].arrival_time, visits[0].departure_time), (2, 542, 602));
    assert_eq!((visits[1].attraction_id, visits[1].arrival_time, visits[1].departure_time), (1, 604, 664));
    assert_eq!(itinerary.days[0].total_travel_time, 4);
    assert_eq!(itinerary.days[0].total_cost, 1000);
    assert_eq!(itinerary.days[0].total_satisfaction, 1_700_000);
    assert_eq!(itinerary.total_cost, 1000);
    assert_eq!(itinerary.algorithm_used, "simulated_annealing");
}

#[test]
fn test_rebuild_keeps_ids_apart_across_days() {
    let (attractions, table) = two_points();
    let itinerary = build_itinerary(&vec![vec![1], vec![1, 2]], &attractions, &table, &params(2, 1000));
    assert_eq!(visited_ids(&itinerary), vec![1, 2]);
    assert_eq!(itinerary.days[1].day, 2);
    assert_eq!(itinerary.days[1].visits[0].arrival_time, 542);
}

#[test]
fn test_rebuild_respects_the_budget() {
    let (attractions, table) = two_points();
    let itinerary = build_itinerary(&vec![vec![2, 1]], &attractions, &table, &params(1, 999));
    assert_eq!(visited_ids(&itinerary), vec![2]);
    assert_eq!(itinerary.total_cost, 500);
}

#[test]
fn test_refiner_is_never_worse_than_greedy() {
    let (attractions, table) = five_points();
    let limits = params(2, 1500);
    let greedy_plan = greedy::solve(&attractions, &table, &limits, 7);
    for seed in [1u64, 2, 3] {
        let refined = solve(&attractions, &table, &limits, seed, never);
        assert!(verify_itinerary(&refined, &limits).is_ok());
        assert_eq!(refined.days.len(), 2);
        assert_eq!(refined.algorithm_used, "simulated_annealing");
        assert!(refined.total_cost <= 1500);
        let ids = visited_ids(&refined);
        let unique: HashSet<u32> = ids.iter().copied().collect();
        assert_eq!(unique.len(), ids.len());
        let chromosome = itinerary_to_chromosome(&refined);
        assert!(
            evaluate_fitness(&chromosome, &attractions, &table, &limits)
                >= evaluate_fitness(&itinerary_to_chromosome(&greedy_plan), &attractions, &table, &limits)
        );
    }
}

#[test]
fn test_refiner_is_valid_when_every_move_is_accepted() {
    let (attractions, table) = five_points();
    let limits = params(3, 2000);
    let refined = solve(&attractions, &table, &limits, 11, always);
    assert!(verify_itinerary(&refined, &limits).is_ok());
    assert_eq!(refined.days.len(), 3);
    let mut sum = 0;
    for day in &refined.days {
        for visit in &day.visits {
            sum += visit.preference as u64;
        }
    }
    assert_eq!(refined.total_satisfaction, sum);
}

#[test]
fn test_refiner_without_days() {
    let (attractions, table) = two_points();
    let refined = solve(&attractions, &table, &params(0, 1000), 5, always);
    assert!(refined.days.is_empty());
    assert!(refined.convergence_data.is_some());
}

#[test]
fn test_trace_samples_every_fiftieth_iteration() {
    let (attractions, table) = two_points();
    let refined = solve(&attractions, &table, &params(1, 1000), 42, never);
    let trace = refined.convergence_data.unwrap();

    let mut temperature: u64 = 100_000_000;
    let mut iterations = 0;
    let mut expected = Vec::new();
    while temperature > 10_000 && iterations < 10_000 {
        if iterations % 50 == 0 {
            expected.push((iterations as u32, temperature));
        }
        temperature = temperature * 995 / 1000;
        iterations += 1;
    }
    assert_eq!(iterations, 1836);
    assert_eq!(trace.len(), 37);
    let sampled: Vec<(u32, u64)> = trace.iter().map(|p| (p.iteration, p.temperature)).collect();
    assert_eq!(sampled, expected);
    assert_eq!(trace[0].temperature, 100_000_000);
    assert_eq!(trace[1].iteration, 50);
    for pair in trace.windows(2) {
        assert!(pair[0].satisfaction <= pair[1].satisfaction);
    }
    assert_eq!(trace[0].satisfaction, 1_700_000);
}

#[test]
fn test_experiments_count_valid_runs() {
    let (attractions, table) = two_points();
    let limits = params(1, 1000);
    let stats = run_experiments(&attractions, &table, &limits, 4, greedy::solve);
    assert_eq!(stats.valid_runs, 4);
    assert_eq!(stats.satisfactions, vec![1_700_000; 4]);
    assert_eq!(stats.satisfaction_sum, 6_800_000);
    assert_eq!(stats.attractions_sum, 8);
    assert_eq!(stats.cost_sum, 4000);
    assert_eq!(stats.mean_satisfaction(), 1_700_000);
    assert_eq!(stats.mean_attractions(), 2);
    assert_eq!(stats.mean_cost(), 1000);
}

#[test]
fn test_experiments_leave_out_invalid_runs() {
    let (attractions, table) = two_points();
    let limits = params(1, 1000);
    let seeds = RefCell::new(Vec::new());
    let stats = run_experiments(&attractions, &table, &limits, 3, |a, t, p, seed| {
        seeds.borrow_mut().push(seed);
        let mut itinerary = greedy::solve(a, t, p, seed);
        if seed == 20 {
            itinerary.total_cost = 5000;
        }
        itinerary
    });
    assert_eq!(*seeds.borrow(), vec![7, 20, 33]);
    assert_eq!(stats.valid_runs, 2);
    assert_eq!(stats.satisfactions.len(), 2);
    assert_eq!(stats.cost_sum, 2000);
    assert_eq!(stats.attractions_sum, 4);
}

#[test]
fn test_experiments_without_valid_runs_report_zero() {
    let (attractions, table) = two_points();
    let limits = params(1, 1000);
    let stats = run_experiments(&attractions, &table, &limits, 2, |a, t, p, seed| {
        let mut itinerary = greedy::solve(a, t, p, seed);
        itinerary.total_cost = 1001;
        itinerary
    });
    assert_eq!(stats.valid_runs, 0);
    assert_eq!(stats.mean_satisfaction(), 0);
    assert_eq!(stats.mean_attractions(), 0);
    assert_eq!(stats.mean_cost(), 0);

    let none = run_experiments(&attractions, &table, &limits, 0, greedy::solve);
    assert_eq!(none.valid_runs, 0);
    assert_eq!(none.mean_cost(), 0);
}

#[test]
fn test_refiner_follows_the_seed() {
    let (attractions, table) = five_points();
    let limits = params(2, 1500);
    let metropolis = |loss: i128, temperature: u64, bits: u64| {
        let draw = (bits >> 11) as f64 / (1u64 << 53) as f64;
        draw < (loss as f64 / temperature as f64).exp()
    };
    let a = solve(&attractions, &table, &limits, 42, metropolis);
    let b = solve(&attractions, &table, &limits, 42, metropolis);
    assert_eq!(visited_ids(&a), visited_ids(&b));
    assert_eq!(a.total_satisfaction, b.total_satisfaction);
    assert_eq!(a.total_cost, b.total_cost);
    assert_eq!(a.convergence_data, b.convergence_data);
}

#[test]
fn test_gene_limit() {
    assert!(within_gene_limit(&vec![vec![1, 2], vec![]]));
    assert!(within_gene_limit(&Vec::new()));
}
