use nn_rust::ec::contestant::Contestant;
use nn_rust::ec::evolutionary_computation::{
    apply_change, cheapest_index, cross_gene, fifth, fittest_index, limit_gene, merge_with,
    mutated_gene, reproduction_mode, score, select_at, thin_with, EvolutionaryComputation, Failure,
    Mode,
};
use nn_rust::error::Error;
use nn_rust::fixed::Fixed;
use nn_rust::nn::data_set::DataSet;
use nn_rust::scalar::Scalar;

#[derive(Clone, Copy, Debug, PartialEq)]
struct R(f64);

impl Scalar for R {
    fn spec_from_ratio(numerator: i64, denominator: i64) -> R {
        R::from_ratio(numerator, denominator)
    }
    fn spec_add(self, rhs: R) -> R {
        self.add(rhs)
    }
    fn spec_sub(self, rhs: R) -> R {
        self.sub(rhs)
    }
    fn spec_mul(self, rhs: R) -> R {
        self.mul(rhs)
    }
    fn spec_div(self, rhs: R) -> R {
        self.div(rhs)
    }
    fn spec_exp(self) -> R {
        self.exp()
    }
    fn spec_powf(self, exponent: R) -> R {
        self.powf(exponent)
    }
    fn spec_lt(self, rhs: R) -> bool {
        self.less_than(rhs)
    }
    fn spec_truncate(self) -> i32 {
        self.truncate()
    }
    fn from_ratio(numerator: i64, denominator: i64) -> R {
        R(numerator as f64 / denominator as f64)
    }
    fn add(self, rhs: R) -> R {
        R(self.0 + rhs.0)
    }
    fn sub(self, rhs: R) -> R {
        R(self.0 - rhs.0)
    }
    fn mul(self, rhs: R) -> R {
        R(self.0 * rhs.0)
    }
    fn div(self, rhs: R) -> R {
        R(self.0 / rhs.0)
    }
    fn exp(self) -> R {
        R(self.0.exp())
    }
    fn powf(self, exponent: R) -> R {
        R(self.0.powf(exponent.0))
    }
    fn less_than(self, rhs: R) -> bool {
        self.0 < rhs.0
    }
    fn truncate(self) -> i32 {
        self.0 as i32
    }
}

fn reals(values: &[f64]) -> Vec<R> {
    values.iter().map(|x| R(*x)).collect()
}

fn genome_cost(genome: &[i32], input_size: i32, output_size: i32) -> i128 {
    let (_, hidden) = Contestant::<R>::from_layer_sizes(genome.to_vec());
    Contestant::<R>::calculations_calculator(Contestant::<R>::add_io(hidden, input_size, output_size))
}

fn active(genome: &[i32]) -> usize {
    genome.iter().filter(|gene| **gene != 0).count()
}

fn training_set() -> DataSet<R> {
    DataSet::new(
        vec![reals(&[0.1, 0.2]), reals(&[0.9, 0.8]), reals(&[0.4, 0.6])],
        vec![reals(&[1.0, 0.0]), reals(&[0.0, 1.0]), reals(&[1.0, 0.0])],
    )
}

/// Two samples with one input and two answers: every network has at least
/// one of them wrong, so that no cost is zero.
fn test_set() -> DataSet<R> {
    DataSet::new(
        vec![reals(&[0.1, 0.2]), reals(&[0.1, 0.2]), reals(&[0.9, 0.8])],
        vec![reals(&[1.0, 0.0]), reals(&[0.0, 1.0]), reals(&[0.0, 1.0])],
    )
}

fn search(population_size: i32, generations: i32) -> EvolutionaryComputation<R> {
    EvolutionaryComputation::new(
        training_set(),
        123456,
        generations,
        population_size,
        2,
        2,
        10,
        5,
        400,
        300,
        2,
        20,
        16,
        R(0.5),
        1,
        test_set(),
    )
}

fn with_fitness(values: &[f64]) -> Vec<Contestant<R>> {
    values
        .iter()
        .map(|fitness| {
            let mut candidate = Contestant::<R>::new(1, 1, vec![0, 0], R(0.1), 2, 2);
            candidate.fitness = R(*fitness);
            candidate
        })
        .collect()
}

fn with_cost(values: &[f64]) -> Vec<Contestant<R>> {
    values
        .iter()
        .map(|cost| {
            let mut candidate = Contestant::<R>::new(1, 1, vec![0, 0], R(0.1), 2, 2);
            candidate.cost = R(*cost);
            candidate
        })
        .collect()
}

#[test]
fn new_keeps_the_settings() {
    let ec = search(4, 2);
    assert!(ec.population.is_empty());
    assert_eq!(ec.current_generation, 0);
    assert_eq!((ec.seed, ec.generations, ec.population_size), (123456, 2, 4));
    assert_eq!((ec.input_size, ec.output_size), (2, 2));
    assert_eq!((ec.max_epochs, ec.max_epochs_start, ec.min_epochs), (10, 5, 1));
    assert_eq!((ec.max_calculations, ec.max_calculations_start), (400, 300));
    assert_eq!((ec.max_layer_count, ec.max_nodes, ec.max_nodes_start), (2, 20, 16));
    assert_eq!(ec.max_learning_rate, R(0.5));
    assert_eq!(ec.training_set.inputs.len(), 3);
    assert_eq!(ec.test_set.targets.len(), 3);
}

#[test]
fn settings_are_checked() {
    assert!(search(4, 2).is_valid());
    let mut no_start_range = search(4, 2);
    no_start_range.max_nodes_start = 0;
    assert!(!no_start_range.is_valid());
    let mut no_epochs = search(4, 2);
    no_epochs.min_epochs = 5;
    assert!(!no_epochs.is_valid());
    let mut negative_input = search(4, 2);
    negative_input.input_size = -1;
    assert!(!negative_input.is_valid());
    let mut negative_output = search(4, 2);
    negative_output.output_size = -1;
    assert!(!negative_output.is_valid());
}

#[test]
fn fifth_power() {
    assert_eq!(fifth(R(0.5)), R(0.03125));
    assert_eq!(fifth(R(-2.0)), R(-32.0));
    assert_eq!(fifth(Fixed::from_ratio(-1, 2)), Fixed::from_ratio(-1, 32));
}

#[test]
fn apply_change_moves_by_the_fifth_power_of_the_draw() {
    assert_eq!(apply_change(R(1.0), R(10.0), R(5.0), R(2.0), R(0.75)), R(5.625));
    assert_eq!(apply_change(R(1.0), R(10.0), R(5.0), R(2.0), R(0.25)), R(4.375));
    assert_eq!(apply_change(R(1.0), R(10.0), R(5.0), R(2.0), R(0.5)), R(5.0));
    assert_eq!(apply_change(R(0.0), R(1.0), R(0.5), R(10.0), R(0.75)), R(0.5 + 0.03125 * 0.5 * 10.0 / 10.0));
}

#[test]
fn apply_change_is_limited_to_the_interval() {
    assert_eq!(apply_change(R(1.0), R(10.0), R(5.0), R(2.0), R(0.0)), R(1.0));
    assert_eq!(apply_change(R(1.0), R(10.0), R(5.0), R(0.01), R(0.95)), R(10.0));
    assert_eq!(apply_change(R(1.0), R(10.0), R(1.0), R(2.0), R(0.9)), R(1.0));
}

#[test]
fn apply_change_moves_less_for_a_fitter_candidate() {
    let weak = apply_change(R(1.0), R(1000.0), R(50.0), R(1.0), R(0.8));
    let strong = apply_change(R(1.0), R(1000.0), R(50.0), R(4.0), R(0.8));
    assert!(strong.0 - 50.0 < weak.0 - 50.0);
    assert!(strong.0 > 50.0);
}

#[test]
fn apply_change_without_fitness_goes_to_an_end() {
    assert_eq!(apply_change(R(1.0), R(10.0), R(5.0), R(0.0), R(0.75)), R(10.0));
    assert_eq!(apply_change(R(1.0), R(10.0), R(5.0), R(0.0), R(0.25)), R(1.0));
}

#[test]
fn apply_change_over_fixed_point() {
    let fx = |n: i64, d: i64| Fixed::from_ratio(n, d);
    assert_eq!(apply_change(fx(1, 1), fx(10, 1), fx(5, 1), fx(2, 1), fx(3, 4)), fx(45, 8));
    assert_eq!(apply_change(fx(1, 1), fx(10, 1), fx(5, 1), fx(2, 1), fx(0, 1)), fx(1, 1));
}

#[test]
fn calculate_change_stays_in_the_interval() {
    let ec = search(4, 2);
    for round in 0..2000 {
        let current = -20.0 + (round % 50) as f64;
        let fitness = 0.001 + (round % 7) as f64;
        let changed = ec.calculate_change(R(1.0), R(10.0), R(current), R(fitness));
        assert!(1.0 <= changed.0 && changed.0 <= 10.0);
        let rate = ec.calculate_change(R(0.0), R(0.5), R(current / 40.0), R(fitness));
        assert!(0.0 <= rate.0 && rate.0 <= 0.5);
    }
}

#[test]
fn calculate_change_mostly_moves_little() {
    let ec = search(4, 2);
    let mut near = 0;
    for _ in 0..4000 {
        let changed = ec.calculate_change(R(0.0), R(1000.0), R(100.0), R(10.0));
        if (changed.0 - 100.0).abs() < 10.0 {
            near += 1;
        }
    }
    assert!(near > 2000);
    assert!(near < 4000);
}

#[test]
fn merge_with_keeps_one_value_or_takes_the_mean() {
    assert_eq!(merge_with(R(2.0), R(6.0), R(0.1), R(0.2)), R(2.0));
    assert_eq!(merge_with(R(2.0), R(6.0), R(0.1), R(0.7)), R(6.0));
    assert_eq!(merge_with(R(2.0), R(6.0), R(0.3), R(0.2)), R(4.0));
    assert_eq!(merge_with(R(2.0), R(6.0), R(0.9), R(0.9)), R(4.0));
    assert_eq!(merge_with(R(2.0), R(6.0), R(0.29), R(0.5)), R(6.0));
}

#[test]
fn merge_gives_one_of_three_values_about_as_often_as_asked() {
    let (mut first, mut second, mut mean) = (0, 0, 0);
    for _ in 0..20000 {
        let merged = EvolutionaryComputation::<R>::merge(R(2.0), R(6.0));
        if merged == R(2.0) {
            first += 1;
        } else if merged == R(6.0) {
            second += 1;
        } else {
            assert_eq!(merged, R(4.0));
            mean += 1;
        }
    }
    assert!((first as f64 / 20000.0 - 0.15).abs() < 0.02);
    assert!((second as f64 / 20000.0 - 0.15).abs() < 0.02);
    assert!((mean as f64 / 20000.0 - 0.7).abs() < 0.02);
}

#[test]
fn limit_gene_holds_a_gene_between_one_and_the_node_limit() {
    assert_eq!(limit_gene(5, 20), 5);
    assert_eq!(limit_gene(25, 20), 20);
    assert_eq!(limit_gene(0, 20), 1);
    assert_eq!(limit_gene(-7, 20), 1);
    assert_eq!(limit_gene(20, 20), 20);
    assert_eq!(limit_gene(5, 0), 1);
}

#[test]
fn select_at_stops_where_the_running_fitness_reaches_the_goal() {
    let population = with_fitness(&[1.0, 2.0, 7.0]);
    assert_eq!(select_at(&population, R(0.0)), 0);
    assert_eq!(select_at(&population, R(0.5)), 0);
    assert_eq!(select_at(&population, R(1.0)), 0);
    assert_eq!(select_at(&population, R(1.5)), 1);
    assert_eq!(select_at(&population, R(3.0)), 1);
    assert_eq!(select_at(&population, R(3.5)), 2);
    assert_eq!(select_at(&population, R(9.99)), 2);
}

#[test]
fn select_at_never_walks_past_the_last_candidate() {
    let population = with_fitness(&[1.0, 2.0, 7.0]);
    assert_eq!(select_at(&population, R(100.0)), 2);
    assert_eq!(select_at(&with_fitness(&[1.0]), R(100.0)), 0);
}

#[test]
fn selection_is_in_proportion_to_fitness() {
    let ec = search(4, 2);
    let population = with_fitness(&[1.0, 2.0, 7.0]);
    let mut chosen = [0usize; 3];
    let draws = 40000;
    for _ in 0..draws {
        chosen[ec.contestant_int(&population, R(10.0)).unwrap()] += 1;
    }
    assert!((chosen[0] as f64 / draws as f64 - 0.1).abs() < 0.02);
    assert!((chosen[1] as f64 / draws as f64 - 0.2).abs() < 0.02);
    assert!((chosen[2] as f64 / draws as f64 - 0.7).abs() < 0.02);
}

#[test]
fn selection_fails_without_candidates_or_fitness() {
    let ec = search(4, 2);
    assert_eq!(ec.contestant_int(&vec![], R(10.0)), Err(Error::EmptyPopulationSelection));
    let population = with_fitness(&[0.0, 0.0]);
    assert_eq!(ec.contestant_int(&population, R(0.0)), Err(Error::EmptyPopulationSelection));
    assert_eq!(ec.contestant_int(&population, R(-1.0)), Err(Error::EmptyPopulationSelection));
    assert_eq!(ec.contestant_int(&population, R(f64::NAN)), Err(Error::EmptyPopulationSelection));
}

#[test]
fn score_sets_scaled_cost_and_fitness() {
    let mut population = with_cost(&[50.0, 100.0, 25.0]);
    let total = score(&mut population);
    let reference = 25.0f64.powf(12.0 / 10.0);
    let scaled: Vec<f64> = [50.0f64, 100.0, 25.0].iter().map(|c| c.powf(12.0 / 10.0)).collect();
    for i in 0..3 {
        assert_eq!(population[i].scaled_cost, R(scaled[i]));
        assert_eq!(population[i].fitness, R(reference / scaled[i]));
    }
    assert_eq!(population[2].fitness, R(1.0));
    assert_eq!(total, R(0.0 + reference / scaled[0] + reference / scaled[1] + 1.0));
    assert!(population[1].fitness.0 < population[0].fitness.0);
    assert!(population[0].fitness.0 < population[2].fitness.0);
}

#[test]
fn score_keeps_everything_but_scaled_cost_and_fitness() {
    let mut population = with_cost(&[50.0, 100.0]);
    population[1].epochs = 9;
    score(&mut population);
    assert_eq!(population[0].cost, R(50.0));
    assert_eq!(population[1].cost, R(100.0));
    assert_eq!(population[1].epochs, 9);
    assert_eq!(population[1].layers, vec![2, 2]);
}

#[test]
fn score_of_no_candidates_is_zero() {
    let mut population: Vec<Contestant<R>> = vec![];
    assert_eq!(score(&mut population), R(0.0));
}

#[test]
fn best_has_the_largest_fitness_and_worst_the_smallest_cost() {
    let mut population = with_cost(&[50.0, 25.0, 100.0, 25.0]);
    score(&mut population);
    assert_eq!(fittest_index(&population), 1);
    assert_eq!(cheapest_index(&population), 1);
    assert_eq!(EvolutionaryComputation::get_best(&population).cost, R(25.0));
    assert_eq!(EvolutionaryComputation::get_worst(&population).cost, R(25.0));
    let unscored = with_fitness(&[1.0, 3.0, 3.0, 2.0]);
    assert_eq!(fittest_index(&unscored), 1);
    assert_eq!(cheapest_index(&unscored), 0);
}

#[test]
fn repair_prunes_until_the_budget_is_met() {
    for _ in 0..200 {
        let genome = vec![30, 0, 40, 12, 50];
        let repaired = EvolutionaryComputation::<R>::repair(genome.clone(), 1500, 4, 3);
        assert_eq!(repaired.len(), 5);
        for i in 0..5 {
            assert!(repaired[i] == genome[i] || repaired[i] == 0);
        }
        assert!(genome_cost(&repaired, 4, 3) <= 1500 || active(&repaired) == 0);
        assert!(active(&repaired) < 4);
    }
}

#[test]
fn repair_leaves_a_genome_that_fits() {
    let genome = vec![10, 0, 12];
    assert_eq!(EvolutionaryComputation::<R>::repair(genome.clone(), 100000, 4, 3), genome);
    assert_eq!(EvolutionaryComputation::<R>::repair(vec![], 0, 4, 3), Vec::<i32>::new());
}

#[test]
fn repair_ends_with_no_active_gene_where_nothing_fits() {
    let repaired = EvolutionaryComputation::<R>::repair(vec![10, 20, 30], 5, 4, 3);
    assert_eq!(repaired, vec![0, 0, 0]);
    assert!(genome_cost(&repaired, 4, 3) > 5);
}

#[test]
fn random_start_keeps_to_the_settings() {
    let ec = search(4, 2);
    for _ in 0..300 {
        let candidate = ec.generate_random_start();
        assert_eq!(candidate.layer_sizes.len(), 2);
        assert!(candidate.layer_sizes.iter().all(|gene| 0 <= *gene && *gene < 16));
        assert!(1 <= candidate.epochs && candidate.epochs < 5);
        assert!(0.0 <= candidate.learning_rate.0 && candidate.learning_rate.0 < 0.5);
        assert_eq!(candidate.seed, 123456);
        assert_eq!(candidate.layers[0], 2);
        assert_eq!(*candidate.layers.last().unwrap(), 2);
        assert_eq!(candidate.fitness, R(0.0));
    }
}

#[test]
fn random_start_with_many_layers_keeps_to_the_settings() {
    let mut ec = search(4, 2);
    ec.max_layer_count = 6;
    ec.max_nodes_start = 60;
    ec.max_calculations_start = 900;
    for _ in 0..300 {
        let candidate = ec.generate_random_start();
        assert_eq!(candidate.layer_sizes.len(), 6);
        assert!(candidate.layer_sizes.iter().all(|gene| 0 <= *gene && *gene < 60));
        assert_eq!(candidate.calculations, genome_cost(&candidate.layer_sizes, 2, 2));
        assert_eq!(candidate.lookup_table.len(), active(&candidate.layer_sizes));
    }
}

#[test]
fn thinning_a_repaired_genome_can_leave_the_budget() {
    let fitting = vec![7, 100];
    assert_eq!(EvolutionaryComputation::<R>::repair(fitting.clone(), 12000, 100, 100), fitting);
    assert_eq!(genome_cost(&fitting, 100, 100), 11607);
    let thinned = vec![0, 100];
    assert_eq!(genome_cost(&thinned, 100, 100), 20200);
    assert_eq!(active(&thinned), 1);
}

#[test]
fn random_start_without_layers_joins_input_and_output() {
    let mut ec = search(4, 2);
    ec.max_layer_count = 0;
    let candidate = ec.generate_random_start();
    assert!(candidate.layer_sizes.is_empty());
    assert_eq!(candidate.layers, vec![2, 2]);
}

#[test]
fn mutate_repairs_to_the_budget() {
    let mut ec = search(4, 2);
    ec.max_layer_count = 5;
    ec.max_nodes = 200;
    ec.max_nodes_start = 150;
    ec.max_calculations = 2000;
    let mut parent = Contestant::<R>::new(4, 1, vec![150, 0, 200, 90, 7], R(0.2), 2, 2);
    parent.fitness = R(0.5);
    for _ in 0..300 {
        let child = ec.mutate(&parent);
        assert_eq!(child.layer_sizes.len(), 5);
        assert!(child.calculations <= 2000 || child.lookup_table.is_empty());
        assert_eq!(child.calculations, genome_cost(&child.layer_sizes, 2, 2));
        assert!(child.layer_sizes.iter().all(|gene| 0 <= *gene && *gene <= 200));
        assert_eq!(child.seed, 123456);
        assert!(1 <= child.epochs && child.epochs <= 10);
        assert!(0.0 <= child.learning_rate.0 && child.learning_rate.0 <= 0.5);
        assert_eq!(child.fitness, R(0.0));
    }
}

#[test]
fn mutate_changes_prunes_and_revives_genes() {
    let ec = search(4, 2);
    let mut parent = Contestant::<R>::new(4, 1, vec![10, 0], R(0.2), 2, 2);
    parent.fitness = R(1.0);
    let (mut pruned, mut revived, mut kept_pruned) = (0, 0, 0);
    for _ in 0..4000 {
        let child = ec.mutate(&parent);
        if child.layer_sizes[0] == 0 {
            pruned += 1;
        } else {
            assert!(1 <= child.layer_sizes[0] && child.layer_sizes[0] <= 20);
        }
        if child.layer_sizes[1] == 0 {
            kept_pruned += 1;
        } else {
            assert!(child.layer_sizes[1] < 16);
            revived += 1;
        }
    }
    assert!((pruned as f64 / 4000.0 - 0.05).abs() < 0.02);
    assert!(revived > kept_pruned);
    assert!(kept_pruned > 0);
}

#[test]
fn mutate_leaves_the_parent_as_it_is() {
    let ec = search(4, 2);
    let mut parent = Contestant::<R>::new(4, 1, vec![10, 12], R(0.2), 2, 2);
    parent.fitness = R(1.0);
    let genome = parent.layer_sizes.clone();
    let weights = parent.neural_network.weights.clone();
    ec.mutate(&parent);
    assert_eq!(parent.layer_sizes, genome);
    assert_eq!(parent.neural_network.weights, weights);
    assert_eq!(parent.epochs, 4);
}

#[test]
fn crossing_takes_every_gene_from_a_parent() {
    let mut ec = search(4, 2);
    ec.max_layer_count = 4;
    let a = Contestant::<R>::new(4, 10, vec![1, 2, 3, 4], R(0.2), 2, 2);
    let b = Contestant::<R>::new(8, 20, vec![11, 12, 13, 14], R(0.4), 2, 2);
    let mut from_a = 0;
    for _ in 0..500 {
        let child = ec.sexual_reproduction(&a, &b);
        for i in 0..4 {
            assert!(child.layer_sizes[i] == a.layer_sizes[i] || child.layer_sizes[i] == b.layer_sizes[i]);
            if child.layer_sizes[i] == a.layer_sizes[i] {
                from_a += 1;
            }
        }
        assert!([4, 6, 8].contains(&child.epochs));
        assert!([10, 15, 20].contains(&child.seed));
        assert!(child.learning_rate == R(0.2) || child.learning_rate == R(0.4)
            || child.learning_rate == R((0.2 + 0.4) / 2.0));
    }
    assert!((from_a as f64 / 2000.0 - 0.5).abs() < 0.05);
}

#[test]
fn breed_gives_as_many_children_as_candidates() {
    let ec = search(4, 2);
    let mut population: Vec<Contestant<R>> = (0..6).map(|_| ec.generate_random_start()).collect();
    for (i, candidate) in population.iter_mut().enumerate() {
        candidate.cost = R(10.0 + i as f64);
    }
    let total = score(&mut population);
    let children = ec.breed(&population, total).unwrap();
    assert_eq!(children.len(), 6);
    for child in children.iter() {
        assert_eq!(child.layer_sizes.len(), 2);
        assert_eq!(child.seed, 123456);
        assert_eq!(child.layers[0], 2);
    }
}

#[test]
fn breed_fails_without_candidates_or_fitness() {
    let ec = search(4, 2);
    assert!(matches!(ec.breed(&vec![], R(1.0)), Err(Error::EmptyPopulationSelection)));
    let population: Vec<Contestant<R>> = (0..3).map(|_| ec.generate_random_start()).collect();
    assert!(matches!(ec.breed(&population, R(0.0)), Err(Error::EmptyPopulationSelection)));
}

#[test]
fn next_gen_scores_and_breeds() {
    let ec = search(4, 2);
    let mut population: Vec<Contestant<R>> = (0..5).map(|_| ec.generate_random_start()).collect();
    for (i, candidate) in population.iter_mut().enumerate() {
        candidate.cost = R(40.0 - i as f64);
    }
    let children = ec.next_gen(&mut population).unwrap();
    assert_eq!(children.len(), 5);
    assert_eq!(population[4].fitness, R(1.0));
    assert!(population[0].fitness.0 < 1.0);
}

#[test]
fn next_gen_fails_where_every_cost_is_zero() {
    let ec = search(4, 2);
    let mut population: Vec<Contestant<R>> = (0..3).map(|_| ec.generate_random_start()).collect();
    assert!(matches!(ec.next_gen(&mut population), Err(Error::EmptyPopulationSelection)));
    let mut empty: Vec<Contestant<R>> = vec![];
    assert!(matches!(ec.next_gen(&mut empty), Err(Error::EmptyPopulationSelection)));
}

#[test]
fn seed_population_fills_the_population() {
    let mut ec = search(7, 2);
    ec.seed_population();
    assert_eq!(ec.population.len(), 7);
    ec.seed_population();
    assert_eq!(ec.population.len(), 7);
    let mut none = search(-1, 2);
    none.seed_population();
    assert!(none.population.is_empty());
}

#[test]
fn evaluate_trains_and_scores_every_candidate_in_its_place() {
    let mut ec = search(5, 2);
    ec.seed_population();
    let genomes: Vec<Vec<i32>> = ec.population.iter().map(|c| c.layer_sizes.clone()).collect();
    assert_eq!(ec.evaluate(), Ok(()));
    for (i, candidate) in ec.population.iter().enumerate() {
        assert_eq!(candidate.layer_sizes, genomes[i]);
        assert!(candidate.cost.0 > 0.0);
        assert_eq!(candidate.cost.0, candidate.average_error.0 + candidate.max_error.0);
        assert!(candidate.max_error_index < 2);
    }
}

#[test]
fn run_completes_and_the_best_candidate_has_the_smallest_cost() {
    let mut ec = search(4, 2);
    let reports = ec.run().unwrap();
    assert_eq!(reports.len(), 2);
    assert_eq!(ec.population.len(), 4);
    for (generation, report) in reports.iter().enumerate() {
        assert_eq!(report.generation, generation as i32);
        assert!(report.best < 4 && report.worst < 4);
        assert!(report.best_cost.0 <= report.worst_cost.0);
        assert!(report.best_cost.0 > 0.0);
    }
    assert_eq!(ec.current_generation, 1);
}

#[test]
fn run_without_generations_only_seeds() {
    let mut ec = search(4, 0);
    assert_eq!(ec.run().unwrap().len(), 0);
    assert_eq!(ec.population.len(), 4);
}

#[test]
fn run_fails_on_samples_that_do_not_fit() {
    let mut ec = search(4, 2);
    ec.test_set = DataSet::new(vec![reals(&[0.1])], vec![reals(&[1.0, 0.0])]);
    let failure = ec.run().unwrap_err();
    assert_eq!(failure, Failure { kind: Error::DimensionMismatch, generation: 0, contestant: 0 });
}

#[test]
fn run_fails_without_a_population() {
    let mut ec = search(0, 2);
    let failure = ec.run().unwrap_err();
    assert_eq!(failure, Failure { kind: Error::EmptyPopulationSelection, generation: 0, contestant: 0 });
}

#[test]
fn run_over_fixed_point_completes() {
    let fx = |values: &[(i64, i64)]| -> Vec<Fixed> {
        values.iter().map(|(n, d)| Fixed::from_ratio(*n, *d)).collect()
    };
    let training = DataSet::new(
        vec![fx(&[(1, 10), (2, 10)]), fx(&[(9, 10), (8, 10)])],
        vec![fx(&[(1, 1), (0, 1)]), fx(&[(0, 1), (1, 1)])],
    );
    let test = DataSet::new(
        vec![fx(&[(1, 10), (2, 10)]), fx(&[(1, 10), (2, 10)])],
        vec![fx(&[(1, 1), (0, 1)]), fx(&[(0, 1), (1, 1)])],
    );
    let mut ec = EvolutionaryComputation::new(
        training, 7, 2, 3, 2, 2, 6, 4, 400, 300, 2, 12, 10, Fixed::from_ratio(1, 2), 1, test,
    );
    assert!(ec.is_valid());
    let reports = ec.run().unwrap();
    assert_eq!(reports.len(), 2);
    for report in reports.iter() {
        assert!(report.best_cost.bits <= report.worst_cost.bits);
    }
}

#[test]
fn repair_keeps_one_gene_where_one_fits() {
    for _ in 0..100 {
        let repaired = EvolutionaryComputation::<R>::repair(vec![100, 100], 1000, 4, 2);
        assert_eq!(active(&repaired), 1);
        assert_eq!(genome_cost(&repaired, 4, 2), 4 * 100 + 100 + 2 * 100 + 2);
    }
}

#[test]
fn repair_prunes_no_more_than_needed() {
    for _ in 0..200 {
        let genome = vec![30, 0, 40, 12, 50];
        let repaired = EvolutionaryComputation::<R>::repair(genome.clone(), 1500, 4, 3);
        let mut restored = 0;
        for i in 0..5 {
            if repaired[i] == 0 && genome[i] != 0 {
                let mut with_gene = repaired.clone();
                with_gene[i] = genome[i];
                if genome_cost(&with_gene, 4, 3) > 1500 {
                    restored += 1;
                }
            }
        }
        assert!(restored > 0 || repaired == genome);
    }
}

#[test]
fn prune_zeroes_the_active_gene_of_the_rank() {
    assert_eq!(EvolutionaryComputation::<R>::prune(vec![0, 5, 0, 9, 3], 0), vec![0, 0, 0, 9, 3]);
    assert_eq!(EvolutionaryComputation::<R>::prune(vec![0, 5, 0, 9, 3], 1), vec![0, 5, 0, 0, 3]);
    assert_eq!(EvolutionaryComputation::<R>::prune(vec![0, 5, 0, 9, 3], 2), vec![0, 5, 0, 9, 0]);
    assert_eq!(EvolutionaryComputation::<R>::prune(vec![-4], 0), vec![0]);
}

#[test]
fn mutated_gene_follows_the_keep_draw() {
    assert_eq!(mutated_gene(20, 10, R(0.5), R(12.7), 3), 12);
    assert_eq!(mutated_gene(20, 10, R(0.949), R(12.7), 3), 12);
    assert_eq!(mutated_gene(20, 10, R(0.95), R(12.7), 3), 0);
    assert_eq!(mutated_gene(20, 10, R(0.99), R(12.7), 3), 0);
    assert_eq!(mutated_gene(20, 0, R(0.5), R(12.7), 3), 3);
    assert_eq!(mutated_gene(20, 0, R(0.95), R(12.7), 3), 0);
    assert_eq!(mutated_gene(20, -6, R(0.5), R(12.7), 3), 3);
    assert_eq!(mutated_gene(20, -6, R(0.99), R(12.7), 3), -6);
}

#[test]
fn mutated_gene_holds_the_changed_value_to_the_node_limit() {
    assert_eq!(mutated_gene(20, 10, R(0.5), R(25.0), 3), 20);
    assert_eq!(mutated_gene(20, 10, R(0.5), R(0.2), 3), 1);
    assert_eq!(mutated_gene(20, 10, R(0.5), R(f64::NAN), 3), 1);
}

#[test]
fn cross_gene_takes_the_first_parent_below_one_half() {
    assert_eq!(cross_gene(4, 9, R(0.0)), 4);
    assert_eq!(cross_gene(4, 9, R(0.49)), 4);
    assert_eq!(cross_gene(4, 9, R(0.5)), 9);
    assert_eq!(cross_gene(4, 9, R(0.99)), 9);
}

#[test]
fn reproduction_mode_follows_the_draw() {
    assert_eq!(reproduction_mode(R(0.0)), Mode::Asexual);
    assert_eq!(reproduction_mode(R(0.749)), Mode::Asexual);
    assert_eq!(reproduction_mode(R(0.75)), Mode::Sexual);
    assert_eq!(reproduction_mode(R(0.96)), Mode::Sexual);
    assert_eq!(reproduction_mode(R(0.98)), Mode::Fresh);
    assert_eq!(reproduction_mode(R(0.999)), Mode::Fresh);
    assert_eq!(reproduction_mode(Fixed::from_ratio(3, 4)), Mode::Sexual);
    assert_eq!(reproduction_mode(Fixed::from_ratio(1, 2)), Mode::Asexual);
    assert_eq!(reproduction_mode(Fixed::from_ratio(97, 100)), Mode::Fresh);
}

#[test]
fn thin_with_prunes_the_genes_whose_draw_is_below_the_rate() {
    let draws = vec![R(0.1), R(0.6), R(0.4)];
    assert_eq!(thin_with(vec![0, 5, 0, 9, 3], R(0.5), &draws), vec![0, 0, 0, 9, 0]);
    assert_eq!(thin_with(vec![0, 5, 0, 9, 3], R(0.0), &draws), vec![0, 5, 0, 9, 3]);
    assert_eq!(thin_with(vec![0, 5, 0, 9, 3], R(1.0), &draws), vec![0, 0, 0, 0, 0]);
    assert_eq!(thin_with(vec![0, 0], R(0.5), &Vec::<R>::new()), vec![0, 0]);
}

#[test]
fn settings_without_layers_need_no_range_for_genes() {
    let mut ec = search(4, 2);
    ec.max_layer_count = 0;
    ec.max_nodes_start = 0;
    assert!(ec.is_valid());
    ec.max_layer_count = 1;
    assert!(!ec.is_valid());
}

#[test]
fn is_member_tells_the_candidates_of_the_search() {
    let ec = search(4, 2);
    let candidate = ec.generate_random_start();
    assert!(ec.is_member(&candidate));
    assert!(ec.is_member(&ec.mutate(&candidate)));
    let other_sizes = Contestant::<R>::new(1, 1, vec![0, 0], R(0.1), 3, 2);
    assert!(!ec.is_member(&other_sizes));
    let longer = Contestant::<R>::new(1, 1, vec![0, 0, 0], R(0.1), 2, 2);
    assert!(!ec.is_member(&longer));
    let too_large = Contestant::<R>::new(1, 1, vec![0, 21], R(0.1), 2, 2);
    assert!(!ec.is_member(&too_large));
    let mut broken = candidate.clone();
    broken.calculations += 1;
    assert!(!ec.is_member(&broken));
    let mut reshaped = candidate.clone();
    reshaped.neural_network.weights[0].data[0].push(R(0.0));
    assert!(!ec.is_member(&reshaped));
}

#[test]
fn install_takes_only_a_whole_population_of_members() {
    let mut ec = search(3, 2);
    ec.seed_population();
    let mut trained: Vec<Contestant<R>> = ec.population.clone();
    trained[1].cost = R(42.0);
    assert!(ec.install(trained.clone()));
    assert_eq!(ec.population[1].cost, R(42.0));
    trained.pop();
    assert!(!ec.install(trained.clone()));
    assert_eq!(ec.population.len(), 3);
    trained.push(Contestant::<R>::new(1, 1, vec![0, 0], R(0.1), 3, 2));
    assert!(!ec.install(trained));
    assert_eq!(ec.population[1].cost, R(42.0));
}

#[test]
fn advance_scores_reports_and_breeds() {
    let mut ec = search(4, 2);
    ec.seed_population();
    ec.current_generation = 5;
    for (i, candidate) in ec.population.iter_mut().enumerate() {
        candidate.cost = R(30.0 - i as f64);
        candidate.average_error = R(20.0 - i as f64);
    }
    let report = ec.advance().unwrap();
    assert_eq!(report.generation, 5);
    assert_eq!((report.best, report.worst), (3, 3));
    assert_eq!(report.best_cost, R(27.0));
    assert_eq!(report.worst_average_error, R(17.0));
    assert_eq!(ec.population.len(), 4);
    assert!(ec.population.iter().all(|child| child.fitness == R(0.0) && child.seed == 123456));
    assert_eq!(ec.current_generation, 5);
}

#[test]
fn advance_fails_where_nothing_can_be_selected() {
    let mut ec = search(3, 2);
    ec.seed_population();
    ec.current_generation = 1;
    let failure = ec.advance().unwrap_err();
    assert_eq!(failure, Failure { kind: Error::EmptyPopulationSelection, generation: 1, contestant: 0 });
    assert_eq!(ec.population.len(), 3);
    let mut empty = search(0, 2);
    assert_eq!(
        empty.advance().unwrap_err(),
        Failure { kind: Error::EmptyPopulationSelection, generation: 0, contestant: 0 }
    );
}

#[test]
fn run_leaves_the_number_of_the_last_generation() {
    let mut ec = search(4, 3);
    ec.current_generation = 9;
    assert_eq!(ec.run().unwrap().len(), 3);
    assert_eq!(ec.current_generation, 2);
    let mut unused = search(4, 0);
    unused.current_generation = 9;
    unused.run().unwrap();
    assert_eq!(unused.current_generation, 9);
}

#[test]
fn mutate_holds_the_epochs_between_one_and_the_limit() {
    let mut ec = search(4, 2);
    ec.max_epochs = 6;
    let mut parent = Contestant::<R>::new(500, 1, vec![10, 0], R(0.2), 2, 2);
    parent.fitness = R(f64::NAN);
    for _ in 0..200 {
        let child = ec.mutate(&parent);
        assert!(1 <= child.epochs && child.epochs <= 6);
    }
    ec.max_epochs = 0;
    assert_eq!(ec.mutate(&parent).epochs, 1);
}

#[test]
fn fitness_never_favours_the_worse_cost_over_fixed_point() {
    let costs: Vec<i64> = vec![1, 3, 25, 50, 50, 67, 100, 133, 150, 200];
    let mut population: Vec<Contestant<Fixed>> = costs
        .iter()
        .map(|cost| {
            let mut candidate = Contestant::<Fixed>::new(1, 1, vec![0, 0], Fixed::from_ratio(1, 10), 2, 2);
            candidate.cost = Fixed::from_ratio(*cost, 1);
            candidate
        })
        .collect();
    score(&mut population);
    for i in 0..population.len() {
        for j in 0..population.len() {
            if population[i].cost.bits <= population[j].cost.bits {
                assert!(population[i].fitness.bits >= population[j].fitness.bits);
            }
            if population[i].fitness.bits < population[j].fitness.bits {
                assert!(population[j].cost.bits < population[i].cost.bits);
            }
        }
    }
    assert_eq!(cheapest_index(&population), 0);
    assert_eq!(fittest_index(&population), 0);
    assert!(population[0].fitness.bits > population[9].fitness.bits);
}

#[test]
fn costs_one_step_apart_can_share_a_fitness_over_fixed_point() {
    let mut population: Vec<Contestant<Fixed>> = (0..2)
        .map(|_| Contestant::<Fixed>::new(1, 1, vec![0, 0], Fixed::from_ratio(1, 10), 2, 2))
        .collect();
    population[0].cost = Fixed { bits: Fixed::from_ratio(50, 1).bits + 1 };
    population[1].cost = Fixed::from_ratio(50, 1);
    score(&mut population);
    assert!(population[0].fitness.bits <= population[1].fitness.bits);
    assert_eq!(cheapest_index(&population), 1);
}

#[test]
fn select_at_over_fixed_point() {
    let population: Vec<Contestant<Fixed>> = [1, 2, 7]
        .iter()
        .map(|fitness| {
            let mut candidate = Contestant::<Fixed>::new(1, 1, vec![0, 0], Fixed::from_ratio(1, 10), 2, 2);
            candidate.fitness = Fixed::from_ratio(*fitness, 1);
            candidate
        })
        .collect();
    assert_eq!(select_at(&population, Fixed::from_ratio(1, 1)), 0);
    assert_eq!(select_at(&population, Fixed { bits: Fixed::from_ratio(1, 1).bits + 1 }), 1);
    assert_eq!(select_at(&population, Fixed::from_ratio(3, 1)), 1);
    assert_eq!(select_at(&population, Fixed { bits: Fixed::from_ratio(3, 1).bits + 1 }), 2);
    assert_eq!(select_at(&population, Fixed::from_ratio(10, 1)), 2);
}

#[test]
fn run_keeps_the_population_size_when_it_fails() {
    let mut ec = search(4, 2);
    ec.test_set = DataSet::new(vec![reals(&[0.1])], vec![reals(&[1.0, 0.0])]);
    assert!(ec.run().is_err());
    assert_eq!(ec.population.len(), 4);
    assert_eq!(ec.current_generation, 0);
}
