use std::collections::HashSet;
use tourism_optimizer::algorithms::{greedy, simulated_annealing};
use tourism_optimizer::models::attraction::{Attraction, Category};
use tourism_optimizer::models::constraints::SolveParams;
use tourism_optimizer::models::itinerary::Itinerary;
use tourism_optimizer::utils::distance::DistanceTable;
use tourism_optimizer::utils::feasibility::verify_itinerary;

const HOTEL: (f64, f64) = (13.7563, 100.5018);

fn haversine(lat1: f64, lng1: f64, lat2: f64, lng2: f64) -> f64 {
    let r = 6371.0;
    let dlat = (lat2 - lat1).to_radians();
    let dlng = (lng2 - lng1).to_radians();
    let a = (dlat / 2.0).sin().powi(2)
        + lat1.to_radians().cos() * lat2.to_radians().cos() * (dlng / 2.0).sin().powi(2);
    let c = 2.0 * a.sqrt().asin();
    r * c
}

fn distances(hotel: (f64, f64), points: &[(f64, f64)]) -> DistanceTable {
    let mut places = vec![hotel];
    places.extend_from_slice(points);
    let rows: Vec<Vec<u32>> = places
        .iter()
        .map(|a| {
            places
                .iter()
                .map(|b| (haversine(a.0, a.1, b.0, b.1) * 1000.0).round() as u32)
                .collect()
        })
        .collect();
    DistanceTable::from_rows(rows).unwrap()
}

fn money(amount: f64) -> u64 {
    (amount * 100.0).round() as u64
}

fn preference(score: f64) -> u32 {
    (score * 1_000_000.0).round() as u32
}

fn metropolis(loss: i128, temperature: u64, bits: u64) -> bool {
    let draw = (bits >> 11) as f64 / (1u64 << 53) as f64;
    draw < (loss as f64 / temperature as f64).exp()
}

fn locations() -> Vec<(f64, f64)> {
    vec![
        (13.7563, 100.5018),
        (13.7600, 100.5050),
        (13.7650, 100.5100),
        (13.7700, 100.5150),
        (13.7550, 100.5080),
    ]
}

fn create_test_attractions() -> Vec<Attraction> {
    vec![
        Attraction {
            id: 1,
            name: "Museum A".to_string(),
            open_time: 540,
            close_time: 1020,
            duration: 90,
            fee: money(10.0),
            preference: preference(0.9),
            category: Category::Museum,
        },
        Attraction {
            id: 2,
            name: "Restaurant B".to_string(),
            open_time: 660,
            close_time: 1320,
            duration: 60,
            fee: money(15.0),
            preference: preference(0.8),
            category: Category::Restaurant,
        },
        Attraction {
            id: 3,
            name: "Park C".to_string(),
            open_time: 360,
            close_time: 1080,
            duration: 120,
            fee: money(0.0),
            preference: preference(0.7),
            category: Category::Park,
        },
        Attraction {
            id: 4,
            name: "Landmark D".to_string(),
            open_time: 480,
            close_time: 1140,
            duration: 45,
            fee: money(5.0),
            preference: preference(0.85),
            category: Category::Landmark,
        },
        Attraction {
            id: 5,
            name: "Shopping E".to_string(),
            open_time: 600,
            close_time: 1260,
            duration: 150,
            fee: money(20.0),
            preference: preference(0.75),
            category: Category::Shopping,
        },
    ]
}

fn default_params() -> SolveParams {
    SolveParams {
        num_days: 2,
        daily_time_budget: 600,
        total_budget: money(100.0),
        start_time: 540,
    }
}

fn greedy_solve(attractions: &Vec<Attraction>, params: &SolveParams, seed: u64) -> Itinerary {
    let table = distances(HOTEL, &locations());
    greedy::solve(attractions, &table, params, seed)
}

fn sa_solve(attractions: &Vec<Attraction>, params: &SolveParams, seed: u64) -> Itinerary {
    let table = distances(HOTEL, &locations());
    simulated_annealing::solve(attractions, &table, params, seed, metropolis)
}

#[test]
fn test_greedy_no_duplicate_visits() {
    let attractions = create_test_attractions();
    let params = default_params();
    let itinerary = greedy_solve(&attractions, &params, 42);

    let mut seen = HashSet::new();
    for day in &itinerary.days {
        for visit in &day.visits {
            assert!(
                seen.insert(visit.attraction_id),
                "Duplicate visit to attraction {}",
                visit.attraction_id
            );
        }
    }
}

#[test]
fn test_sa_no_duplicate_visits() {
    let attractions = create_test_attractions();
    let params = default_params();
    let itinerary = sa_solve(&attractions, &params, 42);

    let mut seen = HashSet::new();
    for day in &itinerary.days {
        for visit in &day.visits {
            assert!(
                seen.insert(visit.attraction_id),
                "Duplicate visit to attraction {}",
                visit.attraction_id
            );
        }
    }
}

#[test]
fn test_greedy_respects_time_windows() {
    let attractions = create_test_attractions();
    let params = default_params();
    let itinerary = greedy_solve(&attractions, &params, 42);

    for day in &itinerary.days {
        for visit in &day.visits {
            let attr = attractions.iter().find(|a| a.id == visit.attraction_id).unwrap();
            assert!(
                visit.arrival_time >= attr.open_time,
                "Visit to {} arrives before opening: {} < {}",
                attr.name,
                visit.arrival_time,
                attr.open_time
            );
            assert!(
                visit.departure_time <= attr.close_time,
                "Visit to {} departs after closing: {} > {}",
                attr.name,
                visit.departure_time,
                attr.close_time
            );
        }
    }
}

#[test]
fn test_sa_respects_time_windows() {
    let attractions = create_test_attractions();
    let params = default_params();
    let itinerary = sa_solve(&attractions, &params, 42);

    for day in &itinerary.days {
        for visit in &day.visits {
            let attr = attractions.iter().find(|a| a.id == visit.attraction_id).unwrap();
            assert!(
                visit.arrival_time >= attr.open_time,
                "Visit to {} arrives before opening: {} < {}",
                attr.name,
                visit.arrival_time,
                attr.open_time
            );
            assert!(
                visit.departure_time <= attr.close_time,
                "Visit to {} departs after closing: {} > {}",
                attr.name,
                visit.departure_time,
                attr.close_time
            );
        }
    }
}

#[test]
fn test_greedy_respects_budget_constraint() {
    let attractions = create_test_attractions();
    let params = default_params();
    let itinerary = greedy_solve(&attractions, &params, 42);

    assert!(
        itinerary.total_cost <= params.total_budget,
        "Total cost {} exceeds budget {}",
        itinerary.total_cost,
        params.total_budget
    );
}

#[test]
fn test_sa_respects_budget_constraint() {
    let attractions = create_test_attractions();
    let params = default_params();
    let itinerary = sa_solve(&attractions, &params, 42);

    assert!(
        itinerary.total_cost <= params.total_budget,
        "Total cost {} exceeds budget {}",
        itinerary.total_cost,
        params.total_budget
    );
}

#[test]
fn test_greedy_respects_daily_time_budget() {
    let attractions = create_test_attractions();
    let params = default_params();
    let itinerary = greedy_solve(&attractions, &params, 42);

    for day in &itinerary.days {
        if !day.visits.is_empty() {
            let start = day.visits.first().unwrap().arrival_time;
            let end = day.visits.last().unwrap().departure_time;
            let duration = end - start;

            assert!(
                duration <= params.daily_time_budget,
                "Day {} duration {} exceeds budget {}",
                day.day,
                duration,
                params.daily_time_budget
            );
        }
    }
}

#[test]
fn test_sa_respects_daily_time_budget() {
    let attractions = create_test_attractions();
    let params = default_params();
    let itinerary = sa_solve(&attractions, &params, 42);

    for day in &itinerary.days {
        if !day.visits.is_empty() {
            let start = day.visits.first().unwrap().arrival_time;
            let end = day.visits.last().unwrap().departure_time;
            let duration = end - start;

            assert!(
                duration <= params.daily_time_budget,
                "Day {} duration {} exceeds budget {}",
                day.day,
                duration,
                params.daily_time_budget
            );
        }
    }
}

#[test]
fn test_greedy_chronological_order() {
    let attractions = create_test_attractions();
    let params = default_params();
    let itinerary = greedy_solve(&attractions, &params, 42);

    for day in &itinerary.days {
        for i in 1..day.visits.len() {
            let prev = &day.visits[i - 1];
            let curr = &day.visits[i];

            assert!(
                curr.arrival_time >= prev.departure_time,
                "Day {} visits out of order: visit {} at {} overlaps with previous ending at {}",
                day.day,
                i,
                curr.arrival_time,
                prev.departure_time
            );
        }
    }
}

#[test]
fn test_sa_chronological_order() {
    let attractions = create_test_attractions();
    let params = default_params();
    let itinerary = sa_solve(&attractions, &params, 42);

    for day in &itinerary.days {
        for i in 1..day.visits.len() {
            let prev = &day.visits[i - 1];
            let curr = &day.visits[i];

            assert!(
                curr.arrival_time >= prev.departure_time,
                "Day {} visits out of order: visit {} at {} overlaps with previous ending at {}",
                day.day,
                i,
                curr.arrival_time,
                prev.departure_time
            );
        }
    }
}

#[test]
fn test_greedy_passes_verifier() {
    let attractions = create_test_attractions();
    let params = default_params();
    let itinerary = greedy_solve(&attractions, &params, 42);

    let result = verify_itinerary(&itinerary, &params);
    assert!(result.is_ok(), "Verifier failed: {:?}", result.err());
}

#[test]
fn test_sa_passes_verifier() {
    let attractions = create_test_attractions();
    let params = default_params();
    let itinerary = sa_solve(&attractions, &params, 42);

    let result = verify_itinerary(&itinerary, &params);
    assert!(result.is_ok(), "Verifier failed: {:?}", result.err());
}

#[test]
fn test_greedy_tight_budget() {
    let attractions = create_test_attractions();
    let params = SolveParams { total_budget: money(10.0), ..default_params() };
    let itinerary = greedy_solve(&attractions, &params, 42);

    assert!(itinerary.total_cost <= params.total_budget);
    assert!(verify_itinerary(&itinerary, &params).is_ok());
}

#[test]
fn test_sa_tight_budget() {
    let attractions = create_test_attractions();
    let params = SolveParams { total_budget: money(10.0), ..default_params() };
    let itinerary = sa_solve(&attractions, &params, 42);

    assert!(itinerary.total_cost <= params.total_budget);
    assert!(verify_itinerary(&itinerary, &params).is_ok());
}

#[test]
fn test_greedy_zero_budget() {
    let attractions = create_test_attractions();
    let params = SolveParams { total_budget: money(0.0), ..default_params() };
    let itinerary = greedy_solve(&attractions, &params, 42);

    assert!(itinerary.total_cost == 0);
    for day in &itinerary.days {
        for visit in &day.visits {
            assert_eq!(visit.fee, 0, "Non-free attraction visited with zero budget");
        }
    }
}

#[test]
fn test_greedy_multiple_runs_deterministic() {
    let attractions = create_test_attractions();
    let params = default_params();

    let result1 = greedy_solve(&attractions, &params, 42);
    let result2 = greedy_solve(&attractions, &params, 42);

    assert_eq!(result1.total_satisfaction, result2.total_satisfaction);
    assert_eq!(result1.total_cost, result2.total_cost);
    assert_eq!(result1.total_attractions, result2.total_attractions);
}

#[test]
fn test_sa_different_seeds_different_results() {
    let attractions = create_test_attractions();
    let params = default_params();

    let result1 = sa_solve(&attractions, &params, 42);
    let result2 = sa_solve(&attractions, &params, 123);

    assert!(verify_itinerary(&result1, &params).is_ok());
    assert!(verify_itinerary(&result2, &params).is_ok());
}

#[test]
fn test_greedy_handles_single_day() {
    let attractions = create_test_attractions();
    let params = SolveParams { num_days: 1, ..default_params() };
    let itinerary = greedy_solve(&attractions, &params, 42);

    assert_eq!(itinerary.days.len(), 1);
    assert!(verify_itinerary(&itinerary, &params).is_ok());
}

#[test]
fn test_sa_handles_single_day() {
    let attractions = create_test_attractions();
    let params = SolveParams { num_days: 1, ..default_params() };
    let itinerary = sa_solve(&attractions, &params, 42);

    assert_eq!(itinerary.days.len(), 1);
    assert!(verify_itinerary(&itinerary, &params).is_ok());
}

#[test]
fn test_greedy_handles_many_days() {
    let attractions = create_test_attractions();
    let params = SolveParams { num_days: 5, ..default_params() };
    let itinerary = greedy_solve(&attractions, &params, 42);

    assert_eq!(itinerary.days.len(), 5);
    assert!(verify_itinerary(&itinerary, &params).is_ok());
}

#[test]
fn test_sa_handles_many_days() {
    let attractions = create_test_attractions();
    let params = SolveParams { num_days: 5, ..default_params() };
    let itinerary = sa_solve(&attractions, &params, 42);

    assert_eq!(itinerary.days.len(), 5);
    assert!(verify_itinerary(&itinerary, &params).is_ok());
}

#[test]
fn test_satisfaction_calculation_correct() {
    let attractions = create_test_attractions();
    let params = default_params();
    let itinerary = greedy_solve(&attractions, &params, 42);

    let mut expected_satisfaction = 0;
    for day in &itinerary.days {
        for visit in &day.visits {
            expected_satisfaction += visit.preference as u64;
        }
    }

    assert!(
        itinerary.total_satisfaction == expected_satisfaction,
        "Satisfaction mismatch: {} vs {}",
        itinerary.total_satisfaction,
        expected_satisfaction
    );
}

#[test]
fn test_cost_calculation_correct() {
    let attractions = create_test_attractions();
    let params = default_params();
    let itinerary = greedy_solve(&attractions, &params, 42);

    let mut expected_cost = 0;
    for day in &itinerary.days {
        for visit in &day.visits {
            expected_cost += visit.fee;
        }
    }

    assert!(
        itinerary.total_cost == expected_cost,
        "Cost mismatch: {} vs {}",
        itinerary.total_cost,
        expected_cost
    );
}
