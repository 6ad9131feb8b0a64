use rand::rngs::StdRng;
use rand::SeedableRng;
use tourism_optimizer::algorithms::simulated_annealing::{
    insert_unvisited, move_between_days, mutate, swap_within_day,
};
use tourism_optimizer::models::attraction::{Attraction, Category};
use tourism_optimizer::models::constraints::SolveParams;

fn catalog(ids: &[u32]) -> Vec<Attraction> {
    ids.iter()
        .map(|&id| Attraction {
            id,
            name: format!("Attraction {}", id),
            open_time: 540,
            close_time: 1020,
            duration: 60,
            fee: 500,
            preference: 700_000,
            category: Category::Landmark,
        })
        .collect()
}

fn sorted(chromosome: &Vec<Vec<u32>>) -> Vec<u32> {
    let mut all: Vec<u32> = chromosome.iter().flatten().copied().collect();
    all.sort();
    all
}

#[test]
fn test_swap_keeps_every_day_its_ids() {
    let start = vec![vec![1, 2, 3, 4], vec![5], vec![]];
    for seed in 0..200 {
        let mut rng = StdRng::seed_from_u64(seed);
        let mut chromosome = start.clone();
        swap_within_day(&mut chromosome, &mut rng);
        assert_eq!(chromosome.len(), 3);
        for day in 0..3 {
            let mut before = start[day].clone();
            let mut after = chromosome[day].clone();
            before.sort();
            after.sort();
            assert_eq!(before, after);
        }
        let changed = (0..4).filter(|&k| chromosome[0][k] != start[0][k]).count();
        assert!(changed == 0 || changed == 2);
    }
}

#[test]
fn test_swap_does_change_some_arrangement() {
    let start = vec![vec![1, 2, 3, 4]];
    let changed = (0..200).any(|seed| {
        let mut rng = StdRng::seed_from_u64(seed);
        let mut chromosome = start.clone();
        swap_within_day(&mut chromosome, &mut rng);
        chromosome != start
    });
    assert!(changed);
}

#[test]
fn test_swap_leaves_short_days_alone() {
    let mut rng = StdRng::seed_from_u64(3);
    let mut empty: Vec<Vec<u32>> = Vec::new();
    swap_within_day(&mut empty, &mut rng);
    assert!(empty.is_empty());
    let mut single = vec![vec![8]];
    swap_within_day(&mut single, &mut rng);
    assert_eq!(single, vec![vec![8]]);
}

#[test]
fn test_move_takes_one_id_to_the_end_of_another_day() {
    let start = vec![vec![1, 2, 3], vec![4, 5], vec![]];
    let mut moved = 0;
    for seed in 0..200 {
        let mut rng = StdRng::seed_from_u64(seed);
        let mut chromosome = start.clone();
        move_between_days(&mut chromosome, &mut rng);
        assert_eq!(chromosome.len(), 3);
        assert_eq!(sorted(&chromosome), vec![1, 2, 3, 4, 5]);
        if chromosome != start {
            moved += 1;
            let to = (0..3).find(|&d| chromosome[d].len() == start[d].len() + 1).unwrap();
            let from = (0..3).find(|&d| chromosome[d].len() + 1 == start[d].len()).unwrap();
            assert!(from != to);
            let id = *chromosome[to].last().unwrap();
            assert!(start[from].contains(&id));
            assert_eq!(&chromosome[to][..start[to].len()], &start[to][..]);
        }
    }
    assert!(moved > 0);
}

#[test]
fn test_move_needs_two_days() {
    let mut rng = StdRng::seed_from_u64(9);
    let mut chromosome = vec![vec![1, 2, 3]];
    move_between_days(&mut chromosome, &mut rng);
    assert_eq!(chromosome, vec![vec![1, 2, 3]]);
}

#[test]
fn test_insert_adds_an_unvisited_id_at_the_end_of_a_day() {
    let attractions = catalog(&[1, 2, 3, 4, 5, 6]);
    let params = SolveParams::default();
    let start = vec![vec![1, 2], vec![3]];
    for seed in 0..200 {
        let mut rng = StdRng::seed_from_u64(seed);
        let mut chromosome = start.clone();
        insert_unvisited(&mut chromosome, &attractions, &params, &mut rng);
        assert_eq!(chromosome.iter().map(|d| d.len()).sum::<usize>(), 4);
        let day = if chromosome[0].len() == 3 { 0 } else { 1 };
        let id = *chromosome[day].last().unwrap();
        assert!([4, 5, 6].contains(&id));
        assert_eq!(&chromosome[day][..start[day].len()], &start[day][..]);
        assert_eq!(chromosome[1 - day], start[1 - day]);
    }
}

#[test]
fn test_insert_without_unvisited_ids_or_days() {
    let attractions = catalog(&[1, 2]);
    let params = SolveParams::default();
    let mut rng = StdRng::seed_from_u64(1);
    let mut full = vec![vec![2], vec![1]];
    insert_unvisited(&mut full, &attractions, &params, &mut rng);
    assert_eq!(full, vec![vec![2], vec![1]]);
    let mut no_days: Vec<Vec<u32>> = Vec::new();
    insert_unvisited(&mut no_days, &attractions, &params, &mut rng);
    assert!(no_days.is_empty());
}

#[test]
fn test_mutate_gives_a_neighbour_and_leaves_the_start() {
    let attractions = catalog(&[1, 2, 3, 4, 5, 6]);
    let params = SolveParams::default();
    let start = vec![vec![1, 2], vec![3], vec![]];
    let mut kinds = [false; 3];
    for seed in 0..300 {
        let mut rng = StdRng::seed_from_u64(seed);
        let before = start.clone();
        let neighbour = mutate(&before, &attractions, &params, &mut rng);
        assert_eq!(before, start);
        assert_eq!(neighbour.len(), 3);
        let total: usize = neighbour.iter().map(|d| d.len()).sum();
        assert!(total == 3 || total == 4);
        if total == 4 {
            kinds[2] = true;
            let mut ids = sorted(&neighbour);
            ids.dedup();
            assert_eq!(ids.len(), 4);
        } else {
            assert_eq!(sorted(&neighbour), vec![1, 2, 3]);
            if neighbour[0].len() != 2 || neighbour[1].len() != 1 {
                kinds[1] = true;
            } else if neighbour != start {
                kinds[0] = true;
            }
        }
    }
    assert_eq!(kinds, [true, true, true]);
}

#[test]
fn test_mutate_follows_the_seed() {
    let attractions = catalog(&[1, 2, 3, 4, 5, 6]);
    let params = SolveParams::default();
    let start = vec![vec![1, 2], vec![3], vec![]];
    let a = mutate(&start, &attractions, &params, &mut StdRng::seed_from_u64(77));
    let b = mutate(&start, &attractions, &params, &mut StdRng::seed_from_u64(77));
    assert_eq!(a, b);
}
