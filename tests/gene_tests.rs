use photogenic::{Gene, Probs, World};
use color_space::Rgb;
use rand::rngs::StdRng;
use rand::SeedableRng;

fn is_permutation(order: &[usize]) -> bool {
    let mut seen = vec![false; order.len()];
    for &i in order {
        if i >= order.len() || seen[i] {
            return false;
        }
        seen[i] = true;
    }
    true
}

fn reversed_whole(n: usize) -> Gene {
    let mut g = Gene::new(n);
    g.reverse_subsequence(0, n);
    g
}

#[test]
fn new_gene_is_the_identity() {
    let g = Gene::new(5);
    assert_eq!(g.indices(), &vec![0, 1, 2, 3, 4]);
    assert_eq!(g.len(), 5);
    assert_eq!(g.probs(), Probs::new());
    assert_eq!(Gene::new(0).len(), 0);
}

#[test]
fn shuffled_genes_are_permutations() {
    let mut rng = StdRng::seed_from_u64(1);
    let mut differs = false;
    for n in [1, 2, 3, 10, 64] {
        let g = Gene::shuffled(n, &mut rng);
        assert_eq!(g.len(), n);
        assert!(is_permutation(g.indices()));
        if g.indices() != Gene::new(n).indices() {
            differs = true;
        }
    }
    assert!(differs);
}

#[test]
fn rotate_subsequence_by_one() {
    let mut g = Gene::new(6);
    g.rotate_subsequence(1, 5, 1);
    assert_eq!(g.indices(), &vec![0, 2, 3, 4, 1, 5]);
}

#[test]
fn rotate_subsequence_by_more() {
    let mut g = Gene::new(6);
    g.rotate_subsequence(0, 6, 4);
    assert_eq!(g.indices(), &vec![4, 5, 0, 1, 2, 3]);
}

#[test]
fn reverse_subsequence_window() {
    let mut g = Gene::new(6);
    g.reverse_subsequence(1, 4);
    assert_eq!(g.indices(), &vec![0, 3, 2, 1, 4, 5]);
}

#[test]
fn swap_positions_exchanges() {
    let mut g = Gene::new(6);
    g.swap_positions(0, 5);
    assert_eq!(g.indices(), &vec![5, 1, 2, 3, 4, 0]);
    g.swap_positions(2, 2);
    assert_eq!(g.indices(), &vec![5, 1, 2, 3, 4, 0]);
}

#[test]
fn random_operators_keep_permutations() {
    let mut rng = StdRng::seed_from_u64(2);
    let mut g = Gene::shuffled(12, &mut rng);
    for _ in 0..300 {
        g.rotate_random_subsequence(&mut rng);
        assert!(is_permutation(g.indices()));
        g.reverse_random_subsequence(&mut rng);
        assert!(is_permutation(g.indices()));
        g.swap_random_positions(&mut rng);
        assert!(is_permutation(g.indices()));
    }
}

#[test]
fn swap_random_positions_on_one_index() {
    let mut rng = StdRng::seed_from_u64(2);
    let mut g = Gene::new(1);
    g.swap_random_positions(&mut rng);
    assert_eq!(g.indices(), &vec![0]);
}

#[test]
fn mutate_keeps_permutation_on_smallest_size() {
    let mut rng = StdRng::seed_from_u64(9);
    let mut g = Gene::new(3);
    for _ in 0..500 {
        g.mutate(&mut rng);
        assert!(is_permutation(g.indices()));
        assert_eq!(g.len(), 3);
    }
}

#[test]
fn mutate_changes_order_and_probabilities() {
    let mut rng = StdRng::seed_from_u64(10);
    let mut g = Gene::new(20);
    for _ in 0..50 {
        g.mutate(&mut rng);
        assert!(is_permutation(g.indices()));
    }
    assert_ne!(g.indices(), Gene::new(20).indices());
    assert_ne!(g.probs(), Probs::new());
}

#[test]
fn crossover_window_keeps_window_and_second_parent_order() {
    let p1 = Gene::new(6);
    let p2 = reversed_whole(6);
    let child = Gene::crossover_window(&p1, &p2, 2, 4, Probs::new());
    assert_eq!(child.indices(), &vec![5, 4, 2, 3, 1, 0]);
}

#[test]
fn crossover_window_inner_example() {
    let mut p1 = Gene::new(6);
    p1.rotate_subsequence(1, 5, 1);
    let p2 = reversed_whole(6);
    let child = Gene::crossover_window(&p1, &p2, 1, 3, Probs::new());
    assert_eq!(child.indices(), &vec![5, 2, 3, 4, 1, 0]);
}

#[test]
fn crossover_window_empty_gives_second_parent() {
    let p1 = Gene::new(6);
    let p2 = reversed_whole(6);
    let child = Gene::crossover_window(&p1, &p2, 3, 3, Probs::new());
    assert_eq!(child.indices(), p2.indices());
}

#[test]
fn crossover_window_whole_gives_first_parent() {
    let mut p1 = Gene::new(5);
    p1.swap_positions(1, 3);
    let p2 = reversed_whole(5);
    let child = Gene::crossover_window(&p1, &p2, 0, 5, Probs::new());
    assert_eq!(child.indices(), p1.indices());
}

#[test]
fn random_crossover_is_valid() {
    let mut rng = StdRng::seed_from_u64(12);
    for n in [1, 2, 5, 17] {
        for _ in 0..100 {
            let p1 = Gene::shuffled(n, &mut rng);
            let p2 = Gene::shuffled(n, &mut rng);
            let child = Gene::crossover(&p1, &p2, &mut rng);
            assert_eq!(child.len(), n);
            assert!(is_permutation(child.indices()));
        }
    }
}

#[test]
fn world_maps_gene_to_colors() {
    let colors = vec![
        Rgb::new(255.0, 0.0, 0.0),
        Rgb::new(0.0, 255.0, 0.0),
        Rgb::new(0.0, 0.0, 255.0),
    ];
    let world = World::new(colors);
    assert_eq!(world.len(), 3);
    let mut g = Gene::new(3);
    g.swap_positions(0, 2);
    let seen = world.iter_colors(&g);
    assert_eq!(seen.len(), 3);
    assert_eq!(seen[0].b, 255.0);
    assert_eq!(seen[1].g, 255.0);
    assert_eq!(seen[2].r, 255.0);
    assert_eq!(world.color(1).g, 255.0);
}

#[test]
fn world_generates_valid_population() {
    let mut rng = StdRng::seed_from_u64(13);
    let world = World::new(vec![Rgb::new(1.0, 2.0, 3.0); 7]);
    let population = world.generate_population(25, &mut rng);
    assert_eq!(population.len(), 25);
    for g in &population {
        assert_eq!(g.len(), 7);
        assert!(is_permutation(g.indices()));
    }
}

#[test]
fn world_mutate_keeps_permutation() {
    let mut rng = StdRng::seed_from_u64(14);
    let world = World::new(vec![Rgb::new(1.0, 2.0, 3.0); 4]);
    let mut g = Gene::new(4);
    for _ in 0..100 {
        world.mutate(&mut g, &mut rng);
        assert!(is_permutation(g.indices()));
    }
}
