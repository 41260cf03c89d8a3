use color_space::{CompareCie2000, Rgb};
use photogenic::{
    Bernoulli, GeneticAlgorithm, Gene, StepError, WeightedChoice, World, FITNESS_SCALE,
};
use rand::rngs::StdRng;
use rand::SeedableRng;

fn is_permutation(order: &[usize]) -> bool {
    let mut seen = vec![false; order.len()];
    for &i in order {
        if i >= order.len() || seen[i] {
            return false;
        }
        seen[i] = true;
    }
    true
}

fn fitness(world: &World, gene: &Gene) -> f64 {
    let colors = world.iter_colors(gene);
    colors
        .windows(2)
        .map(|pair| 1.0 / (pair[0].compare_cie2000(&pair[1]) + 0.0001))
        .sum()
}

fn scores(algo: &GeneticAlgorithm) -> Vec<u64> {
    algo.population()
        .iter()
        .map(|g| (fitness(algo.world(), g) * FITNESS_SCALE as f64).round() as u64)
        .collect()
}

fn palette() -> World {
    World::new(vec![
        Rgb::new(255.0, 0.0, 0.0),
        Rgb::new(255.0, 165.0, 0.0),
        Rgb::new(0.0, 0.0, 255.0),
        Rgb::new(0.0, 128.0, 0.0),
    ])
}

#[test]
fn weighted_choice_refuses_degenerate_weights() {
    assert!(WeightedChoice::new(&vec![]).is_none());
    assert!(WeightedChoice::new(&vec![0, 0, 0]).is_none());
    assert!(WeightedChoice::new(&vec![u64::MAX, 1]).is_none());
    assert!(WeightedChoice::new(&vec![u64::MAX, 0]).is_some());
}

#[test]
fn weighted_choice_pick_by_cumulative_weight() {
    let c = WeightedChoice::new(&vec![3, 0, 2, 5]).unwrap();
    assert_eq!(c.total_weight(), 10);
    assert_eq!(c.pick(0), 0);
    assert_eq!(c.pick(2), 0);
    assert_eq!(c.pick(3), 2);
    assert_eq!(c.pick(4), 2);
    assert_eq!(c.pick(5), 3);
    assert_eq!(c.pick(9), 3);
}

#[test]
fn weighted_choice_never_samples_zero_weight() {
    let mut rng = StdRng::seed_from_u64(31);
    let c = WeightedChoice::new(&vec![0, 7, 0, 1]).unwrap();
    let mut counts = [0usize; 4];
    for _ in 0..4_000 {
        counts[c.sample(&mut rng)] += 1;
    }
    assert_eq!(counts[0], 0);
    assert_eq!(counts[2], 0);
    assert!(counts[1] > counts[3]);
    assert!(counts[3] > 0);
}

#[test]
fn new_manager_is_unpopulated() {
    let algo = GeneticAlgorithm::new(palette());
    assert_eq!(algo.population().len(), 0);
    assert_eq!(algo.generation_idx(), 0);
    assert_eq!(algo.mutation_rate().parts(), 100_000);
    assert!(algo.fittest(&vec![]).is_none());
}

#[test]
fn populate_appends_shuffled_permutations() {
    let mut rng = StdRng::seed_from_u64(32);
    let mut algo = GeneticAlgorithm::new(palette());
    algo.populate(10, &mut rng);
    algo.populate(5, &mut rng);
    assert_eq!(algo.population().len(), 15);
    for g in algo.population() {
        assert_eq!(g.len(), 4);
        assert!(is_permutation(g.indices()));
    }
}

#[test]
fn set_population_size_seeds_grows_and_shrinks() {
    let mut rng = StdRng::seed_from_u64(33);
    let mut algo = GeneticAlgorithm::new(palette());
    algo.set_population_size(6, &vec![], &mut rng);
    assert_eq!(algo.population().len(), 6);
    let kept: Vec<Vec<usize>> = algo.population().iter().map(|g| g.indices().clone()).collect();
    let best = kept[3].clone();
    algo.set_population_size(9, &vec![1, 7, 3, 7, 2, 0], &mut rng);
    assert_eq!(algo.population().len(), 9);
    for (i, g) in algo.population().iter().enumerate() {
        if i < 6 {
            assert_eq!(g.indices(), &kept[i]);
        } else {
            assert_eq!(g.indices(), &best);
        }
    }
    algo.set_population_size(2, &vec![0; 9], &mut rng);
    assert_eq!(algo.population().len(), 2);
    assert_eq!(algo.population()[0].indices(), &kept[0]);
    assert_eq!(algo.population()[1].indices(), &kept[1]);
}

#[test]
fn fittest_takes_last_of_equal_scores() {
    let mut rng = StdRng::seed_from_u64(34);
    let mut algo = GeneticAlgorithm::new(palette());
    algo.populate(4, &mut rng);
    let (g, s) = algo.fittest(&vec![5, 9, 9, 1]).unwrap();
    assert_eq!(s, 9);
    assert_eq!(g.indices(), algo.population()[2].indices());
}

#[test]
fn step_keeps_size_elite_and_counts_generations() {
    let mut rng = StdRng::seed_from_u64(35);
    let mut algo = GeneticAlgorithm::new(palette());
    algo.populate(20, &mut rng);
    for generation in 1..=30 {
        let before = scores(&algo);
        let (elite, best) = {
            let (g, s) = algo.fittest(&before).unwrap();
            (g.indices().clone(), s)
        };
        assert_eq!(algo.step(&before, &mut rng), Ok(()));
        assert_eq!(algo.population().len(), 20);
        assert_eq!(algo.generation_idx(), generation);
        assert_eq!(algo.population()[0].indices(), &elite);
        let after = scores(&algo);
        assert!(after.iter().copied().max().unwrap() >= best);
        for g in algo.population() {
            assert!(is_permutation(g.indices()));
        }
    }
}

#[test]
fn step_with_certain_mutation() {
    let mut rng = StdRng::seed_from_u64(36);
    let mut algo = GeneticAlgorithm::new(palette());
    algo.set_mutation_rate(Bernoulli::new(1_000_000).unwrap());
    algo.populate(8, &mut rng);
    for _ in 0..20 {
        let s = scores(&algo);
        algo.step(&s, &mut rng).unwrap();
        assert_eq!(algo.population().len(), 8);
    }
}

#[test]
fn step_on_two_colours_without_mutation() {
    let mut rng = StdRng::seed_from_u64(37);
    let world = World::new(vec![Rgb::new(10.0, 10.0, 10.0), Rgb::new(10.0, 10.0, 10.0)]);
    let mut algo = GeneticAlgorithm::new(world);
    algo.set_mutation_rate(Bernoulli::new(0).unwrap());
    algo.populate(5, &mut rng);
    let s = scores(&algo);
    for g in algo.population() {
        let f = fitness(algo.world(), g);
        assert!(f.is_finite());
        assert!(f > 9_000.0);
    }
    algo.step(&s, &mut rng).unwrap();
    assert_eq!(algo.population().len(), 5);
}

#[test]
fn step_reports_weight_overflow() {
    let mut rng = StdRng::seed_from_u64(38);
    let mut algo = GeneticAlgorithm::new(palette());
    algo.populate(3, &mut rng);
    let before: Vec<Vec<usize>> = algo.population().iter().map(|g| g.indices().clone()).collect();
    assert_eq!(algo.step(&vec![0, u64::MAX, u64::MAX], &mut rng), Err(StepError::WeightOverflow));
    assert_eq!(algo.generation_idx(), 0);
    let after: Vec<Vec<usize>> = algo.population().iter().map(|g| g.indices().clone()).collect();
    assert_eq!(before, after);
}

#[test]
fn step_with_equal_scores() {
    let mut rng = StdRng::seed_from_u64(39);
    let mut algo = GeneticAlgorithm::new(palette());
    algo.populate(6, &mut rng);
    let last = algo.population()[5].indices().clone();
    algo.step(&vec![u64::MAX; 6], &mut rng).unwrap();
    assert_eq!(algo.population()[0].indices(), &last);
}

#[test]
fn four_colours_two_hundred_generations() {
    let mut rng = StdRng::seed_from_u64(40);
    let mut algo = GeneticAlgorithm::new(palette());
    algo.populate(20, &mut rng);
    let initial = scores(&algo);
    let (_, initial_best) = algo.fittest(&initial).unwrap();
    let initial_fitness = algo
        .population()
        .iter()
        .map(|g| fitness(algo.world(), g))
        .fold(f64::MIN, f64::max);
    for _ in 0..200 {
        let s = scores(&algo);
        algo.step(&s, &mut rng).unwrap();
    }
    let last = scores(&algo);
    let (best, best_score) = algo.fittest(&last).unwrap();
    assert!(best_score >= initial_best);
    assert!(fitness(algo.world(), best) >= initial_fitness - 1e-6);
    let mut order = best.indices().clone();
    order.sort();
    assert_eq!(order, vec![0, 1, 2, 3]);
    assert_eq!(algo.generation_idx(), 200);
}
