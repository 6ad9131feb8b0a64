use tourism_optimizer::data_structures::interval_tree::{Interval, IntervalTree};
use tourism_optimizer::data_structures::priority_queue::PriorityQueue;
use tourism_optimizer::models::attraction::{Attraction, Category};
use tourism_optimizer::models::constraints::SolveParams;
use tourism_optimizer::models::graph::{has_distinct_ids, Graph};
use tourism_optimizer::models::itinerary::{DayPlan, Itinerary, Visit};
use tourism_optimizer::utils::distance::{travel_minutes, DistanceTable};
use tourism_optimizer::utils::feasibility::{verify_itinerary, Violation};
use tourism_optimizer::utils::tags::{determine_category, generate_params, Tags};

fn attraction(id: u32, open_time: u32, close_time: u32, duration: u32) -> Attraction {
    Attraction {
        id,
        name: format!("Attraction {}", id),
        open_time,
        close_time,
        duration,
        fee: 500,
        preference: 900_000,
        category: Category::Museum,
    }
}

fn visit(attraction_id: u32, arrival_time: u32, departure_time: u32, fee: u64) -> Visit {
    Visit {
        attraction_id,
        arrival_time,
        departure_time,
        fee,
        preference: 500_000,
        category: Category::Park,
    }
}

fn day(day: u32, visits: Vec<Visit>) -> DayPlan {
    let total_cost = visits.iter().map(|v| v.fee).sum();
    let total_satisfaction = visits.iter().map(|v| v.preference as u64).sum();
    DayPlan { day, visits, total_travel_time: 0, total_cost, total_satisfaction }
}

fn itinerary(days: Vec<DayPlan>) -> Itinerary {
    let mut itinerary = Itinerary::empty("manual".to_string());
    itinerary.days = days;
    itinerary.compute_totals();
    itinerary
}

fn params() -> SolveParams {
    SolveParams { num_days: 2, daily_time_budget: 600, total_budget: 10_000, start_time: 540 }
}

#[test]
fn test_interval_tree_empty_query() {
    let tree = IntervalTree::new();
    assert_eq!(tree.query_open_at(600), Vec::<u32>::new());
}

#[test]
fn test_interval_tree_window_bounds() {
    let mut tree = IntervalTree::new();
    tree.insert(Interval { start: 540, end: 1020, data: 1 });
    assert_eq!(tree.query_open_at(539), Vec::<u32>::new());
    assert_eq!(tree.query_open_at(540), vec![1]);
    assert_eq!(tree.query_open_at(1019), vec![1]);
    assert_eq!(tree.query_open_at(1020), Vec::<u32>::new());
}

#[test]
fn test_interval_tree_reports_in_start_order() {
    let mut tree = IntervalTree::new();
    tree.insert(Interval { start: 540, end: 1020, data: 1 });
    tree.insert(Interval { start: 660, end: 1320, data: 2 });
    tree.insert(Interval { start: 360, end: 1080, data: 3 });
    tree.insert(Interval { start: 480, end: 1140, data: 4 });
    tree.insert(Interval { start: 600, end: 1260, data: 5 });
    assert_eq!(tree.query_open_at(540), vec![3, 4, 1]);
    assert_eq!(tree.query_open_at(700), vec![3, 4, 1, 5, 2]);
    assert_eq!(tree.query_open_at(1100), vec![4, 5, 2]);
    assert_eq!(tree.query_open_at(1300), vec![2]);
    assert_eq!(tree.query_open_at(1400), Vec::<u32>::new());
}

#[test]
fn test_interval_tree_equal_starts_keep_insertion_order() {
    let mut tree = IntervalTree::new();
    tree.insert(Interval { start: 540, end: 600, data: 7 });
    tree.insert(Interval { start: 540, end: 700, data: 8 });
    tree.insert(Interval { start: 540, end: 800, data: 9 });
    assert_eq!(tree.query_open_at(550), vec![7, 8, 9]);
    assert_eq!(tree.query_open_at(650), vec![8, 9]);
}

#[test]
fn test_interval_tree_sorted_input() {
    let mut tree = IntervalTree::default();
    for i in 0..50u32 {
        tree.insert(Interval { start: i * 10, end: i * 10 + 15, data: i });
    }
    assert_eq!(tree.query_open_at(12), vec![0, 1]);
    assert_eq!(tree.query_open_at(495), vec![49]);
}

#[test]
fn test_priority_queue_empty() {
    let mut queue: PriorityQueue<u32> = PriorityQueue::new();
    assert!(queue.is_empty());
    assert_eq!(queue.len(), 0);
    assert_eq!(queue.peek(), None);
    assert_eq!(queue.pop(), None);
}

#[test]
fn test_priority_queue_pops_largest_first() {
    let mut queue = PriorityQueue::new();
    for (priority, value) in [(5u64, 'a'), (9, 'b'), (1, 'c'), (7, 'd'), (3, 'e'), (8, 'f')] {
        queue.push(priority, value);
    }
    assert_eq!(queue.len(), 6);
    assert_eq!(queue.peek(), Some(&'b'));
    let mut order = Vec::new();
    while let Some(value) = queue.pop() {
        order.push(value);
    }
    assert_eq!(order, vec!['b', 'f', 'd', 'a', 'e', 'c']);
    assert!(queue.is_empty());
}

#[test]
fn test_priority_queue_orders_scores_by_their_bits() {
    let mut queue = PriorityQueue::default();
    queue.push(0.3f64.to_bits(), 3);
    queue.push(0.9f64.to_bits(), 9);
    queue.push(0.45f64.to_bits(), 45);
    assert_eq!(queue.pop(), Some(9));
    assert_eq!(queue.pop(), Some(45));
    assert_eq!(queue.pop(), Some(3));
}

#[test]
fn test_priority_queue_single_entry() {
    let mut queue = PriorityQueue::new();
    queue.push(4, "only");
    assert_eq!(queue.peek(), Some(&"only"));
    assert_eq!(queue.pop(), Some("only"));
    assert_eq!(queue.pop(), None);
}

#[test]
fn test_travel_minutes_rounds_up() {
    assert_eq!(travel_minutes(0), 0);
    assert_eq!(travel_minutes(1), 1);
    assert_eq!(travel_minutes(500), 1);
    assert_eq!(travel_minutes(501), 2);
    assert_eq!(travel_minutes(30_000), 60);
    assert_eq!(travel_minutes(u32::MAX), 8_589_935);
}

#[test]
fn test_distance_table_must_be_square() {
    assert!(DistanceTable::from_rows(vec![vec![0, 1], vec![1]]).is_none());
    assert!(DistanceTable::from_rows(vec![vec![0, 1, 2], vec![1, 0, 2]]).is_none());
    let empty = DistanceTable::from_rows(Vec::new()).unwrap();
    assert_eq!(empty.len(), 0);
}

#[test]
fn test_distance_table_lookup() {
    let table = DistanceTable::from_rows(vec![vec![0, 540, 1200], vec![530, 0, 700], vec![
        1200, 700, 0,
    ]])
    .unwrap();
    assert_eq!(table.len(), 3);
    assert_eq!(table.distance(0, 1), 540);
    assert_eq!(table.distance(1, 0), 530);
    assert_eq!(table.travel_time(0, 1), 2);
    assert_eq!(table.travel_time(0, 2), 3);
    assert_eq!(table.travel_time(2, 2), 0);
}

#[test]
fn test_attraction_open_and_visit_windows() {
    let a = attraction(1, 540, 1020, 60);
    assert!(!a.is_open_at(539));
    assert!(a.is_open_at(540));
    assert!(a.is_open_at(1019));
    assert!(!a.is_open_at(1020));
    assert!(!a.can_visit_at(539));
    assert!(a.can_visit_at(540));
    assert!(a.can_visit_at(960));
    assert!(!a.can_visit_at(961));
    assert!(!a.can_visit_at(u32::MAX));
}

#[test]
fn test_default_params() {
    let params = SolveParams::default();
    assert_eq!(params.num_days, 2);
    assert_eq!(params.daily_time_budget, 600);
    assert_eq!(params.total_budget, 10_000);
    assert_eq!(params.start_time, 540);
}

#[test]
fn test_empty_itinerary() {
    let itinerary = Itinerary::empty("greedy".to_string());
    assert!(itinerary.days.is_empty());
    assert_eq!(itinerary.total_satisfaction, 0);
    assert_eq!(itinerary.total_cost, 0);
    assert_eq!(itinerary.total_attractions, 0);
    assert_eq!(itinerary.algorithm_used, "greedy");
    assert_eq!(itinerary.computation_ms, 0);
    assert!(itinerary.convergence_data.is_none());
}

#[test]
fn test_compute_totals_sums_the_days() {
    let itinerary = itinerary(vec![
        day(1, vec![visit(1, 540, 600, 300), visit(2, 610, 700, 200)]),
        day(2, vec![]),
        day(3, vec![visit(3, 540, 560, 50)]),
    ]);
    assert_eq!(itinerary.total_cost, 550);
    assert_eq!(itinerary.total_satisfaction, 1_500_000);
    assert_eq!(itinerary.total_attractions, 3);
}

#[test]
fn test_valid_itinerary_is_approved() {
    let itinerary = itinerary(vec![
        day(1, vec![visit(1, 540, 600, 300), visit(2, 600, 700, 200)]),
        day(2, vec![visit(3, 540, 1140, 50)]),
    ]);
    assert_eq!(verify_itinerary(&itinerary, &params()), Ok(()));
    assert_eq!(verify_itinerary(&Itinerary::empty("none".to_string()), &params()), Ok(()));
}

#[test]
fn test_duplicate_visit_is_reported() {
    let itinerary = itinerary(vec![
        day(1, vec![visit(1, 540, 600, 0)]),
        day(4, vec![visit(2, 540, 600, 0), visit(1, 700, 800, 0)]),
    ]);
    assert_eq!(
        verify_itinerary(&itinerary, &params()),
        Err(Violation::DuplicateVisit { attraction_id: 1, day: 4 })
    );
}

#[test]
fn test_duplicate_comes_before_other_violations() {
    let itinerary = itinerary(vec![
        day(1, vec![visit(1, 700, 600, 0)]),
        day(2, vec![visit(1, 540, 600, 0)]),
    ]);
    assert_eq!(
        verify_itinerary(&itinerary, &params()),
        Err(Violation::DuplicateVisit { attraction_id: 1, day: 2 })
    );
}

#[test]
fn test_invalid_time_range_is_reported() {
    let itinerary = itinerary(vec![day(1, vec![visit(1, 540, 600, 0), visit(2, 700, 650, 0)])]);
    assert_eq!(
        verify_itinerary(&itinerary, &params()),
        Err(Violation::InvalidTimeRange { attraction_id: 2, arrival: 700, departure: 650 })
    );
}

#[test]
fn test_overlap_is_reported() {
    let itinerary = itinerary(vec![day(3, vec![visit(1, 540, 600, 0), visit(2, 599, 650, 0)])]);
    assert_eq!(
        verify_itinerary(&itinerary, &params()),
        Err(Violation::Overlap { day: 3, attraction_id: 2, previous_id: 1 })
    );
}

#[test]
fn test_daily_time_is_reported() {
    let itinerary = itinerary(vec![day(2, vec![visit(1, 540, 600, 0), visit(2, 700, 1141, 0)])]);
    assert_eq!(
        verify_itinerary(&itinerary, &params()),
        Err(Violation::DailyTimeExceeded { day: 2, total_time: 601, time_budget: 600 })
    );
}

#[test]
fn test_total_budget_is_reported() {
    let itinerary = itinerary(vec![day(1, vec![visit(1, 540, 600, 10_001)])]);
    assert_eq!(
        verify_itinerary(&itinerary, &params()),
        Err(Violation::BudgetExceeded { total_cost: 10_001, budget: 10_000 })
    );
}

#[test]
fn test_early_day_fault_comes_before_later_ones() {
    let itinerary = itinerary(vec![
        day(1, vec![visit(1, 540, 1200, 20_000)]),
        day(2, vec![visit(2, 700, 650, 0)]),
    ]);
    assert_eq!(
        verify_itinerary(&itinerary, &params()),
        Err(Violation::DailyTimeExceeded { day: 1, total_time: 660, time_budget: 600 })
    );
}

#[test]
fn test_distinct_ids() {
    let unique = vec![attraction(1, 0, 10, 5), attraction(2, 0, 10, 5), attraction(3, 0, 10, 5)];
    let repeated = vec![attraction(1, 0, 10, 5), attraction(2, 0, 10, 5), attraction(1, 0, 10, 5)];
    assert!(has_distinct_ids(&unique));
    assert!(!has_distinct_ids(&repeated));
    assert!(has_distinct_ids(&Vec::new()));
}

#[test]
fn test_new_graph_is_empty() {
    let graph = Graph::new();
    assert!(graph.attractions.is_empty());
    assert!(graph.adjacency.is_empty());
}

#[test]
fn test_complete_graph_joins_every_pair() {
    let attractions = vec![attraction(10, 0, 10, 5), attraction(20, 0, 10, 5), attraction(30, 0, 10, 5)];
    let table = DistanceTable::from_rows(vec![
        vec![0, 100, 100, 100],
        vec![100, 0, 540, 1200],
        vec![100, 530, 0, 30_000],
        vec![100, 1200, 30_000, 0],
    ])
    .unwrap();
    let graph = Graph::build_complete(attractions, &table);

    assert_eq!(graph.attractions.len(), 3);
    assert_eq!(graph.attractions[&20].id, 20);
    assert_eq!(graph.adjacency[&10].len(), 2);
    assert_eq!(graph.adjacency[&10][0].to, 20);
    assert_eq!(graph.adjacency[&10][1].to, 30);
    assert_eq!(graph.travel_time(10, 20), 2);
    assert_eq!(graph.travel_time(20, 10), 2);
    assert_eq!(graph.travel_time(10, 30), 3);
    assert_eq!(graph.travel_time(20, 30), 60);
    assert_eq!(graph.travel_cost(10, 20), 27);
    assert_eq!(graph.travel_cost(20, 10), 26);
    assert_eq!(graph.travel_cost(20, 30), 1500);
    assert_eq!(graph.travel_time(10, 10), u32::MAX);
    assert_eq!(graph.travel_time(10, 99), u32::MAX);
    assert_eq!(graph.travel_cost(30, 30), u64::MAX);
}

#[test]
fn test_category_of_tags() {
    let tags = |tourism: Option<&str>, amenity: Option<&str>| Tags {
        name: Some("Somewhere".to_string()),
        tourism: tourism.map(str::to_string),
        amenity: amenity.map(str::to_string),
        opening_hours: None,
    };
    assert_eq!(determine_category(&tags(Some("museum"), None)), Category::Museum);
    assert_eq!(determine_category(&tags(Some("gallery"), Some("cafe"))), Category::Museum);
    assert_eq!(determine_category(&tags(Some("attraction"), None)), Category::Landmark);
    assert_eq!(determine_category(&tags(Some("viewpoint"), None)), Category::Landmark);
    assert_eq!(determine_category(&tags(Some("zoo"), Some("restaurant"))), Category::Entertainment);
    assert_eq!(determine_category(&tags(None, Some("restaurant"))), Category::Restaurant);
    assert_eq!(determine_category(&tags(None, Some("cafe"))), Category::Restaurant);
    assert_eq!(determine_category(&tags(None, Some("bank"))), Category::Entertainment);
    assert_eq!(determine_category(&tags(None, None)), Category::Landmark);
    assert_eq!(determine_category(&tags(Some("Museum"), None)), Category::Entertainment);
}

#[test]
fn test_typical_values_of_categories() {
    assert_eq!(generate_params(&Category::Museum), (540, 1020, 90, 1000));
    assert_eq!(generate_params(&Category::Restaurant), (660, 1320, 60, 1500));
    assert_eq!(generate_params(&Category::Landmark), (360, 1080, 45, 500));
    assert_eq!(generate_params(&Category::Park), (360, 1080, 90, 0));
    assert_eq!(generate_params(&Category::Shopping), (600, 1260, 120, 2000));
    assert_eq!(generate_params(&Category::Entertainment), (720, 1380, 120, 2500));
}
