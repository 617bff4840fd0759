//! The driver of the search: it seeds a population, has every candidate
//! trained and scored, turns the costs into fitness, and breeds the next
//! generation by selection, crossover, mutation and repair of the genome.
use vstd::prelude::*;
use crate::ec::contestant::{
    active_indices, active_values, buildable, clamped, genome_cost, lemma_active_indices,
    lemma_active_values_floor, with_io, Contestant, MIN_NODES,
};
use crate::error::Error;
use crate::nn::data_set::DataSet;
use crate::nn::neural_network::fitted;
use crate::random::{is_unit, random_index, random_range, random_unit};
use crate::scalar::{
    at_most, clamp, one, ranked, same_rank, spec_clamp, whole, within, zero, Scalar,
};

verus! {

/// The share of children, in percent, that are mutated copies of one parent.
pub const ASEXUAL_REPRODUCTION: i64 = 75;

/// The share of children, in percent, that are mutated crossings of two
/// parents.
pub const SEXUAL_REPRODUCTION: i64 = 22;

/// The chance, in percent, that a gene is kept: that an active gene is
/// changed and not pruned, and that a pruned gene comes back.
pub const ASEXUAL_KEEP_RATE: i64 = 95;

/// The chance, in percent, that a crossing takes a value from one parent
/// and not the mean of both.
pub const SEXUAL_KEEP_RATE: i64 = 30;

/// The exponent of the cost, in tenths.
pub const COST_SCALER: i64 = 12;

/// The factor of a change.
pub const EXP_PARAMETER_CHANGE_RATE_LINEAR: i64 = 10;

/// The scalar that stands for `p` percent.
pub open spec fn percent<T: Scalar>(p: i64) -> T {
    T::spec_from_ratio(p, 100)
}

/// The fifth power, by four products.
pub open spec fn spec_fifth<T: Scalar>(r: T) -> T {
    r.spec_mul(r).spec_mul(r).spec_mul(r).spec_mul(r)
}

/// The value that `current` changes to for a draw from `[0, 1)`: with
/// `r = 2 * draw - 1`, it moves by `r^5 * (current - min) * 10 / fitness` and
/// is then limited to the interval from `min` to `max`.
pub open spec fn spec_change<T: Scalar>(min: T, max: T, current: T, fitness: T, draw: T) -> T {
    let r = draw.spec_mul(whole::<T>(2)).spec_sub(one::<T>());
    let delta = spec_fifth(r).spec_mul(current.spec_sub(min)).spec_mul(
        whole::<T>(EXP_PARAMETER_CHANGE_RATE_LINEAR),
    ).spec_div(fitness);
    spec_clamp(current.spec_add(delta), min, max)
}

/// What two values merge to for two draws from `[0, 1)`: where the first
/// draw is below the keep rate, one of the two, `a` where the second draw is
/// below one half; else their mean.
pub open spec fn spec_merge<T: Scalar>(a: T, b: T, keep: T, side: T) -> T {
    if keep.spec_lt(percent::<T>(SEXUAL_KEEP_RATE)) {
        if side.spec_lt(percent::<T>(50)) {
            a
        } else {
            b
        }
    } else {
        a.spec_add(b).spec_div(whole::<T>(2))
    }
}

/// `value` limited to the interval from 1 to `max_nodes`: the larger of 1
/// and the smaller of `max_nodes` and `value`. Genes are held so to the node
/// limit, and epochs to the epoch limit.
pub open spec fn spec_limit_gene(value: i32, max_nodes: i32) -> i32 {
    let capped = if value < max_nodes {
        value
    } else {
        max_nodes
    };
    if 1 < capped {
        capped
    } else {
        1
    }
}

/// What a gene becomes in a mutation, for a keep draw from `[0, 1)`, a
/// changed value and a fresh value: where the draw is below the keep rate, an
/// active gene becomes the integer part of the changed value, held between 1
/// and `max_nodes`, and a gene that is not active becomes the fresh value;
/// else an active gene is pruned and a gene that is not active stays.
pub open spec fn spec_mutated_gene<T: Scalar>(max_nodes: i32, gene: i32, keep: T, value: T, fresh: i32) -> i32 {
    if gene > 0 {
        if keep.spec_lt(percent::<T>(ASEXUAL_KEEP_RATE)) {
            spec_limit_gene(value.spec_truncate(), max_nodes)
        } else {
            0
        }
    } else if keep.spec_lt(percent::<T>(ASEXUAL_KEEP_RATE)) {
        fresh
    } else {
        gene
    }
}

/// The gene of a crossing, for a draw from `[0, 1)`: that of the first
/// parent where the draw is below one half, else that of the second.
pub open spec fn spec_cross_gene<T: Scalar>(a: i32, b: i32, draw: T) -> i32 {
    if draw.spec_lt(percent::<T>(50)) {
        a
    } else {
        b
    }
}

/// The genome after the first `upto` of its active genes, counted from the
/// front, were each pruned where its draw is below `keep_rate`.
pub open spec fn spec_thin<T: Scalar>(genome: Seq<i32>, keep_rate: T, draws: Seq<T>, upto: nat) -> Seq<i32>
    decreases upto,
{
    if upto == 0 {
        genome
    } else {
        let before = spec_thin(genome, keep_rate, draws, (upto - 1) as nat);
        if draws[upto - 1].spec_lt(keep_rate) {
            before.update(active_indices(genome)[upto - 1] as int, 0)
        } else {
            before
        }
    }
}

/// How a child comes about.
#[derive(Clone, Copy, Debug, PartialEq, Eq, Structural)]
pub enum Mode {
    /// A mutated copy of one parent.
    Asexual,
    /// A mutated crossing of two parents.
    Sexual,
    /// A fresh random candidate.
    Fresh,
}

/// The mode that a draw from `[0, 1)` gives: asexual below 75/100, sexual
/// from there up to the sum of 22/100 and 75/100, fresh from there on.
pub open spec fn spec_mode<T: Scalar>(draw: T) -> Mode {
    if draw.spec_lt(percent::<T>(ASEXUAL_REPRODUCTION)) {
        Mode::Asexual
    } else if draw.spec_lt(percent::<T>(SEXUAL_REPRODUCTION).spec_add(percent::<T>(ASEXUAL_REPRODUCTION))) {
        Mode::Sexual
    } else {
        Mode::Fresh
    }
}

/// The cost of a candidate, scaled: the cost to the power of 1.2.
pub open spec fn spec_scaled_cost<T: Scalar>(cost: T) -> T {
    cost.spec_powf(T::spec_from_ratio(COST_SCALER, 10))
}

/// The candidate with its scaled cost and its fitness set: the fitness is
/// the scaled cost of the reference candidate over its own.
pub open spec fn rescored<T: Scalar>(before: Contestant<T>, reference: T) -> Contestant<T> {
    Contestant {
        scaled_cost: spec_scaled_cost(before.cost),
        fitness: reference.spec_div(spec_scaled_cost(before.cost)),
        ..before
    }
}

/// The position of the largest fitness among the first `upto` candidates,
/// the first of them where several are largest.
pub open spec fn fittest<T: Scalar>(population: Seq<Contestant<T>>, upto: nat) -> int
    decreases upto,
{
    if upto <= 1 {
        0
    } else {
        let best = fittest(population, (upto - 1) as nat);
        if population[best].fitness.spec_lt(population[upto - 1].fitness) {
            upto - 1
        } else {
            best
        }
    }
}

/// The position of the smallest cost among the first `upto` candidates, the
/// first of them where several are smallest.
pub open spec fn cheapest<T: Scalar>(population: Seq<Contestant<T>>, upto: nat) -> int
    decreases upto,
{
    if upto <= 1 {
        0
    } else {
        let best = cheapest(population, (upto - 1) as nat);
        if population[upto - 1].cost.spec_lt(population[best].cost) {
            upto - 1
        } else {
            best
        }
    }
}

/// The fitness of the first `upto` candidates, added up from the left,
/// starting from zero.
pub open spec fn fitness_total<T: Scalar>(population: Seq<Contestant<T>>, upto: nat) -> T
    decreases upto,
{
    if upto == 0 {
        zero::<T>()
    } else {
        fitness_total(population, (upto - 1) as nat).spec_add(population[upto - 1].fitness)
    }
}

/// The fitness of the candidates up to and including `last`, added up from
/// the left, starting from the first.
pub open spec fn running_fitness<T: Scalar>(population: Seq<Contestant<T>>, last: nat) -> T
    decreases last,
{
    if last == 0 {
        population[0].fitness
    } else {
        running_fitness(population, (last - 1) as nat).spec_add(population[last as int].fitness)
    }
}

/// `chosen` is where a walk over the population stops for `goal`: the
/// running fitness is below the goal at every candidate before it, and is not
/// below the goal at `chosen`, unless `chosen` is the last candidate.
pub open spec fn selects<T: Scalar>(population: Seq<Contestant<T>>, goal: T, chosen: int) -> bool {
    &&& 0 <= chosen < population.len()
    &&& forall|k: int| 0 <= k < chosen ==> (#[trigger] running_fitness(population, k as nat)).spec_lt(goal)
    &&& chosen + 1 < population.len() ==> !running_fitness(population, chosen as nat).spec_lt(goal)
}

/// `chosen` is where the walk can stop for a goal drawn from zero up to
/// `fitness_sum`.
pub open spec fn picked<T: Scalar>(population: Seq<Contestant<T>>, fitness_sum: T, chosen: int) -> bool {
    exists|draw: T| #[trigger]
        is_unit(draw) && selects(population, draw.spec_mul(fitness_sum), chosen)
}

/// The genome fits the budget, or no gene of it is active.
pub open spec fn repaired(genome: Seq<i32>, budget: i32, input_size: i32, output_size: i32) -> bool {
    genome_cost(genome, input_size, output_size) <= budget || active_values(genome).len() == 0
}

/// `after` is `before` with some genes set to zero.
pub open spec fn thinned(after: Seq<i32>, before: Seq<i32>) -> bool {
    &&& after.len() == before.len()
    &&& forall|i: int| 0 <= i < after.len() ==> #[trigger] after[i] == before[i] || after[i] == 0
}

/// The genome with the active gene of rank `pick` set to zero, the active
/// genes counted from the front, starting with rank 0.
pub open spec fn spec_prune(genome: Seq<i32>, pick: int) -> Seq<i32> {
    genome.update(active_indices(genome)[pick] as int, 0)
}

/// One step of a repair: `before` is over the budget, and `after` is
/// `before` with one of its active genes pruned.
pub open spec fn prune_step(
    before: Seq<i32>,
    after: Seq<i32>,
    budget: i32,
    input_size: i32,
    output_size: i32,
) -> bool {
    &&& genome_cost(before, input_size, output_size) > budget
    &&& exists|pick: int|
        0 <= pick < active_indices(before).len() && after == #[trigger] spec_prune(before, pick)
}

/// The genomes of a repair, one after another: each but the last is over
/// the budget and followed by itself with one active gene pruned; the last
/// fits the budget or has no active gene.
pub open spec fn repair_path(path: Seq<Seq<i32>>, budget: i32, input_size: i32, output_size: i32) -> bool {
    &&& path.len() > 0
    &&& forall|k: int|
        0 <= k < path.len() - 1 ==> prune_step(
            #[trigger] path[k],
            path[k + 1],
            budget,
            input_size,
            output_size,
        )
    &&& repaired(path.last(), budget, input_size, output_size)
}

/// A repair can lead from `start` to `end`.
pub open spec fn repairs_to(
    start: Seq<i32>,
    end: Seq<i32>,
    budget: i32,
    input_size: i32,
    output_size: i32,
) -> bool {
    exists|path: Seq<Seq<i32>>| #[trigger]
        repair_path(path, budget, input_size, output_size) && path[0] == start && path.last()
            == end
}

/// `r` is `a`, `b`, or their mean.
pub open spec fn merged<T: Scalar>(a: T, b: T, r: T) -> bool {
    exists|keep: T, side: T| is_unit(keep) && is_unit(side) && r == #[trigger] spec_merge(a, b, keep, side)
}

/// `r` is what `current` can change to.
pub open spec fn changed<T: Scalar>(min: T, max: T, current: T, fitness: T, r: T) -> bool {
    exists|draw: T| is_unit(draw) && r == #[trigger] spec_change(min, max, current, fitness, draw)
}

/// `r` is the gene that a crossing of the genes `a` and `b` can have.
pub open spec fn crossed_gene<T: Scalar>(a: i32, b: i32, r: i32) -> bool {
    exists|draw: T| #[trigger] is_unit(draw) && r == spec_cross_gene(a, b, draw)
}

/// Every scalar of `draws` can be a draw from `[0, 1)`.
pub open spec fn all_units<T: Scalar>(draws: Seq<T>) -> bool {
    forall|k: int| 0 <= k < draws.len() ==> is_unit(#[trigger] draws[k])
}

/// `r` is a draw from `[0, 1)` times `max`.
pub open spec fn scaled_unit<T: Scalar>(r: T, max: T) -> bool {
    exists|draw: T| #[trigger] is_unit(draw) && r == draw.spec_mul(max)
}

/// `r` is the integer part of what the integers `a` and `b` merge to.
pub open spec fn merged_whole<T: Scalar>(a: i32, b: i32, r: i32) -> bool {
    exists|value: T| #[trigger]
        merged(whole::<T>(a as i64), whole::<T>(b as i64), value) && r == value.spec_truncate()
}

/// `r` is the integer part of what the integer `current` can change to
/// between 1 and `max`, held between 1 and `max`.
pub open spec fn changed_whole<T: Scalar>(max: i32, current: i32, fitness: T, r: i32) -> bool {
    exists|value: T| #[trigger]
        changed(one::<T>(), whole::<T>(max as i64), whole::<T>(current as i64), fitness, value) && r
            == spec_limit_gene(value.spec_truncate(), max)
}

/// Scaling a cost and dividing by it keep the order, for the scalar type:
/// of two costs the larger has no smaller scaled cost, no scaled cost is below
/// zero, and of two divisors not below zero the larger gives no larger
/// quotient of a value not below zero.
pub open spec fn cost_ordered<T: Scalar>() -> bool {
    &&& forall|a: T, b: T|
        #![trigger spec_scaled_cost(a), spec_scaled_cost(b)]
        !b.spec_lt(a) ==> !spec_scaled_cost(b).spec_lt(spec_scaled_cost(a))
    &&& forall|a: T| !(#[trigger] spec_scaled_cost(a)).spec_lt(zero::<T>())
    &&& forall|r: T, x: T, y: T|
        #![trigger r.spec_div(x), r.spec_div(y)]
        !r.spec_lt(zero::<T>()) && !x.spec_lt(zero::<T>()) && !y.spec_lt(x) ==> !r.spec_div(x).spec_lt(
            r.spec_div(y),
        )
}

/// A walk stops at one candidate only: the goal decides the selection.
pub proof fn lemma_selection_decided<T: Scalar>(population: Seq<Contestant<T>>, goal: T, a: int, b: int)
    requires
        selects(population, goal, a),
        selects(population, goal, b),
    ensures
        a == b,
{
    if a < b {
        assert(running_fitness(population, a as nat).spec_lt(goal));
    }
    if b < a {
        assert(running_fitness(population, b as nat).spec_lt(goal));
    }
}

/// No candidate has a larger fitness than the fittest, where the order
/// ranks the scalars.
pub proof fn lemma_fittest_is_largest<T: Scalar>(population: Seq<Contestant<T>>, upto: nat, k: int)
    requires
        ranked::<T>(),
        0 <= k < upto <= population.len(),
    ensures
        0 <= fittest(population, upto) < upto,
        !population[fittest(population, upto)].fitness.spec_lt(population[k].fitness),
    decreases upto,
{
    let own = population[k].fitness;
    assert(own.spec_lt(own) ==> !own.spec_lt(own));
    if upto > 1 {
        let best = population[fittest(population, (upto - 1) as nat)].fitness;
        let last = population[upto - 1].fitness;
        lemma_fittest_is_largest(population, (upto - 1) as nat, 0);
        if k < upto - 1 {
            lemma_fittest_is_largest(population, (upto - 1) as nat, k);
            if best.spec_lt(last) && last.spec_lt(own) {
                assert(best.spec_lt(own) || own.spec_lt(last));
                assert(!own.spec_lt(last));
            }
        }
    }
}

/// No candidate has a smaller cost than the cheapest, where the order ranks
/// the scalars.
pub proof fn lemma_cheapest_is_smallest<T: Scalar>(population: Seq<Contestant<T>>, upto: nat, k: int)
    requires
        ranked::<T>(),
        0 <= k < upto <= population.len(),
    ensures
        0 <= cheapest(population, upto) < upto,
        !population[k].cost.spec_lt(population[cheapest(population, upto)].cost),
    decreases upto,
{
    let own = population[k].cost;
    assert(own.spec_lt(own) ==> !own.spec_lt(own));
    if upto > 1 {
        let best = population[cheapest(population, (upto - 1) as nat)].cost;
        let last = population[upto - 1].cost;
        lemma_cheapest_is_smallest(population, (upto - 1) as nat, 0);
        if k < upto - 1 {
            lemma_cheapest_is_smallest(population, (upto - 1) as nat, k);
            if last.spec_lt(best) && own.spec_lt(last) {
                assert(own.spec_lt(best) || best.spec_lt(last));
                assert(!best.spec_lt(last));
            }
        }
    }
}

/// After scoring, fitness never favours the worse cost: a candidate whose
/// cost is not above that of another has a fitness that is not below the
/// other's, so a fitness below another's comes with a cost above the
/// other's, and candidates of one cost have one fitness. This holds where
/// scaling and dividing keep the order.
pub proof fn lemma_cost_decides_fitness<T: Scalar>(
    before: Seq<Contestant<T>>,
    after: Seq<Contestant<T>>,
    i: int,
    j: int,
)
    requires
        cost_ordered::<T>(),
        all_rescored(before, after),
        0 <= i < before.len(),
        0 <= j < before.len(),
    ensures
        !before[j].cost.spec_lt(before[i].cost) ==> !after[i].fitness.spec_lt(after[j].fitness),
        after[i].fitness.spec_lt(after[j].fitness) ==> before[j].cost.spec_lt(before[i].cost),
        before[i].cost == before[j].cost ==> after[i].fitness == after[j].fitness,
        after[i].cost == before[i].cost,
        after[j].cost == before[j].cost,
{
    let reference = spec_scaled_cost(before[cheapest(before, before.len())].cost);
    assert(after[i] == rescored(before[i], reference));
    assert(after[j] == rescored(before[j], reference));
    let own = spec_scaled_cost(before[i].cost);
    let other = spec_scaled_cost(before[j].cost);
    assert(!reference.spec_lt(zero::<T>()));
    assert(!own.spec_lt(zero::<T>()));
    if !before[j].cost.spec_lt(before[i].cost) {
        assert(!other.spec_lt(own));
        assert(!reference.spec_div(own).spec_lt(reference.spec_div(other)));
    }
}

/// After scoring, the reference candidate, which has the smallest cost, has
/// a fitness that no fitness is above; the candidate that is reported as best
/// has a fitness of the same rank, and every candidate with a fitness below
/// that of the best has a cost above that of the best. This holds where the
/// order ranks the scalars and scaling and dividing keep the order.
pub proof fn lemma_best_and_reference<T: Scalar>(
    before: Seq<Contestant<T>>,
    after: Seq<Contestant<T>>,
    k: int,
)
    requires
        ranked::<T>(),
        cost_ordered::<T>(),
        all_rescored(before, after),
        0 <= k < before.len(),
    ensures
        0 <= fittest(after, after.len()) < after.len(),
        0 <= cheapest(after, after.len()) < after.len(),
        !after[cheapest(after, after.len())].fitness.spec_lt(after[k].fitness),
        !after[fittest(after, after.len())].fitness.spec_lt(after[k].fitness),
        same_rank(
            after[fittest(after, after.len())].fitness,
            after[cheapest(after, after.len())].fitness,
        ),
        after[k].fitness.spec_lt(after[fittest(after, after.len())].fitness) ==> after[fittest(
            after,
            after.len(),
        )].cost.spec_lt(after[k].cost),
{
    let best = fittest(after, after.len());
    let worst = cheapest(after, after.len());
    lemma_cheapest_is_smallest(after, after.len(), k);
    lemma_fittest_is_largest(after, after.len(), k);
    lemma_fittest_is_largest(after, after.len(), worst);
    lemma_cost_decides_fitness(before, after, worst, k);
    lemma_cost_decides_fitness(before, after, worst, best);
    lemma_cost_decides_fitness(before, after, k, best);
    lemma_cheapest_is_smallest(after, after.len(), best);
}

/// A changed value lies between `min` and `max`, whatever the value was,
/// whatever the fitness and the draw, wherever `min` is not above `max`.
pub proof fn lemma_change_within<T: Scalar>(min: T, max: T, current: T, fitness: T, draw: T)
    requires
        at_most(min, max),
    ensures
        within(spec_change(min, max, current, fitness, draw), min, max),
{
}

/// Zeroing an active gene leaves the other active genes, one fewer.
pub proof fn lemma_prune(genome: Seq<i32>, position: int)
    requires
        0 <= position < genome.len(),
        genome[position] != 0,
    ensures
        active_indices(genome.update(position, 0)).len() == active_indices(genome).len() - 1,
        active_values(genome.update(position, 0)).len() == active_values(genome).len() - 1,
    decreases genome.len(),
{
    let pruned = genome.update(position, 0);
    if position == genome.len() - 1 {
        assert(pruned.drop_last() =~= genome.drop_last());
    } else {
        assert(pruned.drop_last() =~= genome.drop_last().update(position, 0));
        lemma_prune(genome.drop_last(), position);
    }
}

/// A genome whose genes are no more than `limit` encodes layers that can be
/// built, where `limit` is at least the minimum and the sizes of input and
/// output, and its square can be counted.
pub proof fn lemma_admitted_buildable(genome: Seq<i32>, limit: int, input_size: i32, output_size: i32)
    requires
        genome.len() <= usize::MAX,
        forall|i: int| 0 <= i < genome.len() ==> #[trigger] genome[i] <= limit,
        MIN_NODES <= limit,
        0 <= input_size <= limit,
        0 <= output_size <= limit,
        limit * limit <= usize::MAX,
    ensures
        buildable(with_io(active_values(genome), input_size, output_size)),
{
    lemma_active_indices(genome);
    lemma_active_values_floor(genome);
    let hidden = active_values(genome);
    let layers = with_io(hidden, input_size, output_size);
    assert forall|k: int| 0 <= k < layers.len() implies 0 <= #[trigger] layers[k] <= limit by {
        if 1 <= k <= hidden.len() {
            assert(layers[k] == hidden[k - 1]);
            let position = active_indices(genome)[k - 1];
            assert(hidden[k - 1] == clamped(genome[position as int]));
        }
    }
    assert forall|k: int| 0 <= k < layers.len() - 1 implies (#[trigger] layers[k + 1]) * layers[k]
        <= usize::MAX by {
        let a = layers[k + 1] as int;
        let b = layers[k] as int;
        assert(0 <= b <= limit);
        assert(a * b <= limit * limit) by (nonlinear_arith)
            requires
                0 <= a <= limit,
                0 <= b <= limit,
        ;
    }
}

/// `value` limited to the interval from 1 to `max_nodes`.
pub fn limit_gene(value: i32, max_nodes: i32) -> (r: i32)
    ensures
        r == spec_limit_gene(value, max_nodes),
        1 <= r,
        r <= max_nodes || r == 1,
{
    let capped = if value < max_nodes {
        value
    } else {
        max_nodes
    };
    if 1 < capped {
        capped
    } else {
        1
    }
}

/// The fifth power of `r`.
pub fn fifth<T: Scalar>(r: T) -> (p: T)
    ensures
        p == spec_fifth(r),
{
    r.mul(r).mul(r).mul(r).mul(r)
}

/// Changes `current` for a given draw from `[0, 1)`: see [`spec_change`].
/// The result lies between `min` and `max` wherever `min` is not above
/// `max`.
pub fn apply_change<T: Scalar>(min: T, max: T, current: T, fitness: T, draw: T) -> (r: T)
    ensures
        r == spec_change(min, max, current, fitness, draw),
        at_most(min, max) ==> within(r, min, max),
{
    let r = draw.mul(T::from_ratio(2, 1)).sub(T::from_ratio(1, 1));
    let delta = fifth(r).mul(current.sub(min)).mul(
        T::from_ratio(EXP_PARAMETER_CHANGE_RATE_LINEAR, 1),
    ).div(fitness);
    clamp(current.add(delta), min, max)
}

/// Merges two values for two given draws from `[0, 1)`: see [`spec_merge`].
pub fn merge_with<T: Scalar>(a: T, b: T, keep: T, side: T) -> (r: T)
    ensures
        r == spec_merge(a, b, keep, side),
{
    if keep.less_than(T::from_ratio(SEXUAL_KEEP_RATE, 100)) {
        if side.less_than(T::from_ratio(50, 100)) {
            a
        } else {
            b
        }
    } else {
        a.add(b).div(T::from_ratio(2, 1))
    }
}

/// What a gene becomes in a mutation: see [`spec_mutated_gene`].
pub fn mutated_gene<T: Scalar>(max_nodes: i32, gene: i32, keep: T, value: T, fresh: i32) -> (r: i32)
    ensures
        r == spec_mutated_gene(max_nodes, gene, keep, value, fresh),
{
    let kept = keep.less_than(T::from_ratio(ASEXUAL_KEEP_RATE, 100));
    if gene > 0 {
        if kept {
            limit_gene(value.truncate(), max_nodes)
        } else {
            0
        }
    } else if kept {
        fresh
    } else {
        gene
    }
}

/// The gene of a crossing: see [`spec_cross_gene`].
pub fn cross_gene<T: Scalar>(a: i32, b: i32, draw: T) -> (r: i32)
    ensures
        r == spec_cross_gene(a, b, draw),
{
    if draw.less_than(T::from_ratio(50, 100)) {
        a
    } else {
        b
    }
}

/// The mode that a draw gives: see [`spec_mode`].
pub fn reproduction_mode<T: Scalar>(draw: T) -> (m: Mode)
    ensures
        m == spec_mode(draw),
{
    let asexual = T::from_ratio(ASEXUAL_REPRODUCTION, 100);
    if draw.less_than(asexual) {
        Mode::Asexual
    } else if draw.less_than(T::from_ratio(SEXUAL_REPRODUCTION, 100).add(asexual)) {
        Mode::Sexual
    } else {
        Mode::Fresh
    }
}

/// Prunes every active gene whose draw is below `keep_rate`; the draws
/// belong to the active genes in genome order.
pub fn thin_with<T: Scalar>(layer_sizes: Vec<i32>, keep_rate: T, draws: &Vec<T>) -> (r: Vec<i32>)
    requires
        draws@.len() == active_indices(layer_sizes@).len(),
    ensures
        r@ == spec_thin(layer_sizes@, keep_rate, draws@, draws@.len()),
        thinned(r@, layer_sizes@),
{
    let lookup = Contestant::<T>::from_layer_sizes(layer_sizes.clone()).0;
    proof {
        lemma_active_indices(layer_sizes@);
    }
    let ghost whole_genome = layer_sizes@;
    let mut genome = layer_sizes;
    let mut k: usize = 0;
    while k < draws.len()
        invariant
            k <= draws@.len(),
            draws@.len() == lookup@.len(),
            lookup@ == active_indices(whole_genome),
            forall|p: int| 0 <= p < lookup@.len() ==> (#[trigger] lookup@[p]) < whole_genome.len(),
            genome@ == spec_thin(whole_genome, keep_rate, draws@, k as nat),
            thinned(genome@, whole_genome),
        decreases draws@.len() - k,
    {
        if draws[k].less_than(keep_rate) {
            genome.set(lookup[k], 0);
        }
        k = k + 1;
    }
    genome
}

/// Where a walk over the population stops for `goal`: at the first
/// candidate at which the running fitness is not below the goal, or at the
/// last candidate.
pub fn select_at<T: Scalar>(population: &Vec<Contestant<T>>, goal: T) -> (point: usize)
    requires
        population@.len() > 0,
    ensures
        selects(population@, goal, point as int),
{
    let mut current_sum = population[0].fitness;
    let mut point: usize = 0;
    while current_sum.less_than(goal) && point < population.len() - 1
        invariant
            point < population@.len(),
            current_sum == running_fitness(population@, point as nat),
            forall|k: int| 0 <= k < point ==> (#[trigger] running_fitness(population@, k as nat)).spec_lt(
                goal,
            ),
        decreases population@.len() - point,
    {
        point = point + 1;
        current_sum = current_sum.add(population[point].fitness);
    }
    point
}

/// Sets the scaled cost and the fitness of every candidate and returns the
/// sum of the fitness. The reference of the fitness is the candidate with the
/// smallest cost, so that this candidate has the scaled cost of the reference
/// over its own as fitness, and a candidate with a larger scaled cost has
/// less.
pub fn score<T: Scalar>(population: &mut Vec<Contestant<T>>) -> (total: T)
    ensures
        all_rescored(old(population)@, final(population)@),
        total == fitness_total(final(population)@, final(population)@.len()),
{
    let zero_value = T::from_ratio(0, 1);
    if population.len() == 0 {
        return zero_value;
    }
    let exponent = T::from_ratio(COST_SCALER, 10);
    let worst = cheapest_index(population);
    let reference = population[worst].cost.powf(exponent);
    let mut fitness_sum = zero_value;
    let mut i: usize = 0;
    while i < population.len()
        invariant
            i <= population@.len(),
            population@.len() == old(population)@.len(),
            exponent == T::spec_from_ratio(COST_SCALER, 10),
            reference == spec_scaled_cost(
                old(population)@[cheapest(old(population)@, old(population)@.len())].cost,
            ),
            forall|k: int| 0 <= k < i ==> #[trigger] population@[k] == rescored(old(population)@[k], reference),
            forall|k: int| i <= k < population@.len() ==> #[trigger] population@[k] == old(population)@[k],
            fitness_sum == fitness_total(population@, i as nat),
        decreases population@.len() - i,
    {
        let ghost before = population@;
        let scaled = population[i].cost.powf(exponent);
        let fitness = reference.div(scaled);
        population[i].scaled_cost = scaled;
        population[i].fitness = fitness;
        fitness_sum = fitness_sum.add(fitness);
        proof {
            lemma_fitness_total_same(before, population@, i as nat);
        }
        i = i + 1;
    }
    fitness_sum
}

/// The fitness total of the first `upto` candidates does not depend on the
/// candidates after them.
proof fn lemma_fitness_total_same<T: Scalar>(a: Seq<Contestant<T>>, b: Seq<Contestant<T>>, upto: nat)
    requires
        upto <= a.len(),
        upto <= b.len(),
        forall|k: int| 0 <= k < upto ==> a[k] == b[k],
    ensures
        fitness_total(a, upto) == fitness_total(b, upto),
    decreases upto,
{
    if upto > 0 {
        lemma_fitness_total_same(a, b, (upto - 1) as nat);
    }
}

/// The position of the candidate with the largest fitness, the first of
/// them where several have it.
pub fn fittest_index<T: Scalar>(population: &Vec<Contestant<T>>) -> (r: usize)
    requires
        population@.len() > 0,
    ensures
        r == fittest(population@, population@.len()),
        r < population@.len(),
{
    let mut best: usize = 0;
    let mut i: usize = 1;
    while i < population.len()
        invariant
            1 <= i <= population@.len(),
            best < i,
            best == fittest(population@, i as nat),
        decreases population@.len() - i,
    {
        if population[best].fitness.less_than(population[i].fitness) {
            best = i;
        }
        i = i + 1;
    }
    best
}

/// The position of the candidate with the smallest cost, the first of them
/// where several have it.
pub fn cheapest_index<T: Scalar>(population: &Vec<Contestant<T>>) -> (r: usize)
    requires
        population@.len() > 0,
    ensures
        r == cheapest(population@, population@.len()),
        r < population@.len(),
{
    let mut worst: usize = 0;
    let mut i: usize = 1;
    while i < population.len()
        invariant
            1 <= i <= population@.len(),
            worst < i,
            worst == cheapest(population@, i as nat),
        decreases population@.len() - i,
    {
        if population[i].cost.less_than(population[worst].cost) {
            worst = i;
        }
        i = i + 1;
    }
    worst
}

/// `after` is `before`, trained on the training set and scored on the test
/// set.
pub open spec fn evaluated<T: Scalar>(
    training: DataSet<T>,
    test: DataSet<T>,
    before: Contestant<T>,
    after: Contestant<T>,
) -> bool {
    &&& after.wf()
    &&& after.same_candidate(before)
    &&& fitted(
        before.neural_network@,
        after.neural_network@,
        training.inputs@,
        training.targets@,
        before.epochs,
    )
    &&& after.scored_by(after.neural_network@, test.inputs@, test.targets@)
}

/// Every candidate of `after` is the candidate of `before` at its position,
/// trained and scored.
pub open spec fn all_evaluated<T: Scalar>(
    training: DataSet<T>,
    test: DataSet<T>,
    before: Seq<Contestant<T>>,
    after: Seq<Contestant<T>>,
) -> bool {
    &&& after.len() == before.len()
    &&& forall|i: int| 0 <= i < before.len() ==> evaluated(training, test, before[i], #[trigger] after[i])
}

/// Every candidate of `after` is the candidate of `before` at its position
/// with its scaled cost and its fitness set, the candidate with the smallest
/// cost being the reference.
pub open spec fn all_rescored<T: Scalar>(before: Seq<Contestant<T>>, after: Seq<Contestant<T>>) -> bool {
    &&& after.len() == before.len()
    &&& forall|i: int|
        0 <= i < before.len() ==> #[trigger] after[i] == rescored(
            before[i],
            spec_scaled_cost(before[cheapest(before, before.len())].cost),
        )
}

/// The populations of one generation: as it was bred, after training and
/// testing, and after scoring.
pub struct Generation<T> {
    pub bred: Seq<Contestant<T>>,
    pub trained: Seq<Contestant<T>>,
    pub scored: Seq<Contestant<T>>,
}

/// The report on a scored population.
pub open spec fn spec_report<T: Scalar>(population: Seq<Contestant<T>>, generation: i32) -> GenerationReport<T> {
    let best = fittest(population, population.len());
    let worst = cheapest(population, population.len());
    GenerationReport {
        generation,
        best: best as usize,
        best_cost: population[best].cost,
        best_average_error: population[best].average_error,
        worst: worst as usize,
        worst_cost: population[worst].cost,
        worst_average_error: population[worst].average_error,
    }
}

/// The reports are those of the scored populations of the generations.
pub open spec fn recorded<T: Scalar>(reports: Seq<GenerationReport<T>>, trace: Seq<Generation<T>>) -> bool {
    &&& reports.len() == trace.len()
    &&& forall|g: int| 0 <= g < reports.len() ==> #[trigger] reports[g] == spec_report(trace[g].scored, g as i32)
}

/// The settings of a search.
pub struct Settings<T> {
    pub population_size: i32,
    pub input_size: i32,
    pub output_size: i32,
    pub max_epochs: i32,
    pub max_epochs_start: i32,
    pub min_epochs: i32,
    pub max_calculations: i32,
    pub max_calculations_start: i32,
    pub max_layer_count: i32,
    pub max_nodes: i32,
    pub max_nodes_start: i32,
    pub max_learning_rate: T,
    pub generations: i32,
    pub seed: i32,
}

impl<T: Scalar> Settings<T> {
    /// The largest size that a layer of a candidate can have.
    pub open spec fn node_limit(self) -> int {
        let a: int = if self.max_nodes > self.max_nodes_start {
            self.max_nodes as int
        } else {
            self.max_nodes_start as int
        };
        let b: int = if self.input_size > self.output_size {
            self.input_size as int
        } else {
            self.output_size as int
        };
        let c: int = if a > b {
            a
        } else {
            b
        };
        if c > MIN_NODES {
            c
        } else {
            MIN_NODES as int
        }
    }

    /// The number of candidates of a population.
    pub open spec fn population_len(self) -> nat {
        if self.population_size > 0 {
            self.population_size as nat
        } else {
            0
        }
    }

    /// The number of genes of a candidate.
    pub open spec fn genome_len(self) -> nat {
        if self.max_layer_count > 0 {
            self.max_layer_count as nat
        } else {
            0
        }
    }

    /// The settings allow a search: where a candidate has genes, there is a
    /// range to draw them from; there is a range to draw the first epochs
    /// from; the sizes of input and output are not
    /// negative, and a weight matrix between two layers of the largest size
    /// has no more elements than a `usize` can count.
    pub open spec fn valid(self) -> bool {
        &&& self.max_layer_count > 0 ==> self.max_nodes_start > 0
        &&& self.min_epochs < self.max_epochs_start
        &&& self.input_size >= 0
        &&& self.output_size >= 0
        &&& self.node_limit() * self.node_limit() <= usize::MAX
    }

    /// No gene is above the largest layer size.
    pub open spec fn admits(self, genome: Seq<i32>) -> bool {
        forall|i: int| 0 <= i < genome.len() ==> #[trigger] genome[i] <= self.node_limit()
    }

    /// The candidate is one of this search: well-formed, with a genome of
    /// the length and the sizes that the settings give.
    pub open spec fn member(self, c: Contestant<T>) -> bool {
        &&& c.wf()
        &&& c.input_size() == self.input_size
        &&& c.output_size() == self.output_size
        &&& c.layer_sizes@.len() == self.genome_len()
        &&& self.admits(c.layer_sizes@)
    }

    /// Every candidate of the population is one of this search.
    pub open spec fn members(self, population: Seq<Contestant<T>>) -> bool {
        forall|i: int| 0 <= i < population.len() ==> self.member(#[trigger] population[i])
    }

    /// `after` is what the gene `before` becomes for the keep draw, the
    /// changed value and the fresh value, each of which can have been drawn.
    pub open spec fn gene_from(self, before: i32, fitness: T, keep: T, value: T, fresh: i32, after: i32) -> bool {
        &&& is_unit(keep)
        &&& changed(
            one::<T>(),
            whole::<T>(self.max_nodes as i64),
            whole::<T>(before as i64),
            fitness,
            value,
        )
        &&& 0 <= fresh < self.max_nodes_start
        &&& after == spec_mutated_gene(self.max_nodes, before, keep, value, fresh)
    }

    /// What a gene can be after a mutation, before the repair.
    pub open spec fn gene_outcome(self, before: i32, fitness: T, after: i32) -> bool {
        exists|keep: T, value: T, fresh: i32| #[trigger]
            self.gene_from(before, fitness, keep, value, fresh, after)
    }

    /// `after` is what the genome `before` can be after a mutation, before
    /// the repair: gene by gene an outcome of the gene before.
    pub open spec fn mutated_genome(self, before: Seq<i32>, fitness: T, after: Seq<i32>) -> bool {
        &&& after.len() == before.len()
        &&& forall|i: int| 0 <= i < after.len() ==> self.gene_outcome(before[i], fitness, #[trigger] after[i])
    }

    /// `genome` comes about from the genes `drawn` at first: they are
    /// repaired to the first budget, which gives `fitting`, and every active
    /// gene of `fitting` is pruned where its draw is below `keep_rate`.
    pub open spec fn start_of(
        self,
        drawn: Seq<i32>,
        fitting: Seq<i32>,
        keep_rate: T,
        draws: Seq<T>,
        genome: Seq<i32>,
    ) -> bool {
        &&& drawn.len() == self.genome_len()
        &&& forall|i: int| 0 <= i < drawn.len() ==> 0 <= #[trigger] drawn[i] < self.max_nodes_start
        &&& repairs_to(drawn, fitting, self.max_calculations_start, self.input_size, self.output_size)
        &&& repaired(fitting, self.max_calculations_start, self.input_size, self.output_size)
        &&& is_unit(keep_rate)
        &&& draws.len() == active_indices(fitting).len()
        &&& all_units(draws)
        &&& genome == spec_thin(fitting, keep_rate, draws, draws.len())
        &&& thinned(genome, fitting)
    }

    /// The genome can be that of a fresh random candidate.
    pub open spec fn started(self, genome: Seq<i32>) -> bool {
        exists|drawn: Seq<i32>, fitting: Seq<i32>, keep_rate: T, draws: Seq<T>| #[trigger]
            self.start_of(drawn, fitting, keep_rate, draws, genome)
    }

    /// The candidate can be a fresh random one.
    pub open spec fn fresh(self, c: Contestant<T>) -> bool {
        &&& self.member(c)
        &&& c.unscored()
        &&& c.seed == self.seed
        &&& self.min_epochs <= c.epochs < self.max_epochs_start
        &&& forall|i: int| 0 <= i < c.layer_sizes@.len() ==> 0 <= #[trigger] c.layer_sizes@[i] < self.max_nodes_start
        &&& self.started(c.layer_sizes@)
        &&& scaled_unit(c.learning_rate, self.max_learning_rate)
    }

    /// `child` comes about from `parent` by the mutated genome `changed`:
    /// that genome is repaired to the budget, epochs and learning rate are
    /// changed, the seed is that of the search.
    pub open spec fn mutation_by(self, parent: Contestant<T>, changed_genome: Seq<i32>, child: Contestant<T>) -> bool {
        &&& self.member(child)
        &&& child.unscored()
        &&& child.seed == self.seed
        &&& self.mutated_genome(parent.layer_sizes@, parent.fitness, changed_genome)
        &&& repairs_to(
            changed_genome,
            child.layer_sizes@,
            self.max_calculations,
            self.input_size,
            self.output_size,
        )
        &&& repaired(child.layer_sizes@, self.max_calculations, self.input_size, self.output_size)
        &&& changed_whole(self.max_epochs, parent.epochs, parent.fitness, child.epochs)
        &&& 1 <= child.epochs
        &&& child.epochs <= self.max_epochs || child.epochs == 1
        &&& changed(
            zero::<T>(),
            self.max_learning_rate,
            parent.learning_rate,
            parent.fitness,
            child.learning_rate,
        )
    }

    /// `child` can be a mutated copy of `parent`.
    pub open spec fn mutation_of(self, parent: Contestant<T>, child: Contestant<T>) -> bool {
        exists|changed_genome: Seq<i32>| #[trigger] self.mutation_by(parent, changed_genome, child)
    }

    /// `child` can be a crossing of `a` and `b`: every gene from one of
    /// them, by a draw of its own; epochs, seed and learning rate merged.
    pub open spec fn crossing_of(self, a: Contestant<T>, b: Contestant<T>, child: Contestant<T>) -> bool {
        &&& self.member(child)
        &&& child.unscored()
        &&& forall|i: int|
            0 <= i < child.layer_sizes@.len() ==> crossed_gene::<T>(
                a.layer_sizes@[i],
                b.layer_sizes@[i],
                #[trigger] child.layer_sizes@[i],
            )
        &&& merged_whole::<T>(a.epochs, b.epochs, child.epochs)
        &&& merged_whole::<T>(a.seed, b.seed, child.seed)
        &&& merged(a.learning_rate, b.learning_rate, child.learning_rate)
    }

    /// `child` comes about for the mode draw `draw`: the candidate at
    /// `first` can be selected; in asexual mode the child is a mutated copy
    /// of it; in sexual mode the candidate at `second` can be selected too,
    /// `crossed` is a crossing of both, and the child a mutated copy of
    /// `crossed`; else the child is a fresh random candidate.
    pub open spec fn child_by(
        self,
        population: Seq<Contestant<T>>,
        fitness_sum: T,
        draw: T,
        first: int,
        second: int,
        crossed: Contestant<T>,
        child: Contestant<T>,
    ) -> bool {
        &&& is_unit(draw)
        &&& picked(population, fitness_sum, first)
        &&& match spec_mode(draw) {
            Mode::Asexual => self.mutation_of(population[first], child),
            Mode::Sexual => {
                &&& picked(population, fitness_sum, second)
                &&& self.crossing_of(population[first], population[second], crossed)
                &&& self.mutation_of(crossed, child)
            },
            Mode::Fresh => self.fresh(child),
        }
    }

    /// `child` can be bred from the population.
    pub open spec fn child_of(self, population: Seq<Contestant<T>>, fitness_sum: T, child: Contestant<T>) -> bool {
        exists|draw: T, first: int, second: int, crossed: Contestant<T>| #[trigger]
            self.child_by(population, fitness_sum, draw, first, second, crossed, child)
    }

    /// `next` can be the first `count` children that are bred from the
    /// population.
    pub open spec fn offspring(
        self,
        population: Seq<Contestant<T>>,
        fitness_sum: T,
        next: Seq<Contestant<T>>,
        count: nat,
    ) -> bool {
        &&& next.len() == count
        &&& self.members(next)
        &&& forall|i: int| 0 <= i < next.len() ==> self.child_of(population, fitness_sum, #[trigger] next[i])
    }

    /// Every candidate of the population can be a fresh random one.
    pub open spec fn all_fresh(self, population: Seq<Contestant<T>>) -> bool {
        forall|i: int| 0 <= i < population.len() ==> self.fresh(#[trigger] population[i])
    }

    /// One generation went by: its candidates, at least one and as many as
    /// the population size, were trained and tested, then scored, and their
    /// fitness added up to more than zero.
    #[verifier::opaque]
    pub open spec fn passed(self, training: DataSet<T>, test: DataSet<T>, g: Generation<T>) -> bool {
        &&& g.bred.len() > 0
        &&& g.bred.len() == self.population_len()
        &&& self.members(g.bred)
        &&& all_evaluated(training, test, g.bred, g.trained)
        &&& all_rescored(g.trained, g.scored)
        &&& zero::<T>().spec_lt(fitness_total(g.scored, g.scored.len()))
    }

    /// `next` can be bred from the scored population of the generation.
    #[verifier::opaque]
    pub open spec fn leads_to(self, g: Generation<T>, next: Seq<Contestant<T>>) -> bool {
        self.offspring(g.scored, fitness_total(g.scored, g.scored.len()), next, g.scored.len())
    }

    /// The generations of `trace` went by, one after another, and led to
    /// `population`: the first was seeded with fresh random candidates, every
    /// further one was bred from the one before it, and `population` was bred
    /// from the last. Without a generation, `population` is the seed. Every
    /// population has as many candidates as the population size.
    pub open spec fn traced(
        self,
        training: DataSet<T>,
        test: DataSet<T>,
        trace: Seq<Generation<T>>,
        population: Seq<Contestant<T>>,
    ) -> bool {
        &&& forall|g: int| 0 <= g < trace.len() ==> self.passed(training, test, #[trigger] trace[g])
        &&& forall|g: int| 0 <= g < trace.len() - 1 ==> self.leads_to(#[trigger] trace[g], trace[g + 1].bred)
        &&& if trace.len() == 0 {
            self.all_fresh(population)
        } else {
            self.all_fresh(trace[0].bred) && self.leads_to(trace.last(), population)
        }
        &&& population.len() == self.population_len()
    }

    /// The trained population was scored, which gave `scored`, with a
    /// fitness total above zero; `report` is the report on it, and `next` was
    /// bred from it.
    pub open spec fn advanced_by(
        self,
        trained: Seq<Contestant<T>>,
        scored: Seq<Contestant<T>>,
        generation: i32,
        report: GenerationReport<T>,
        next: Seq<Contestant<T>>,
    ) -> bool {
        &&& all_rescored(trained, scored)
        &&& scored.len() > 0
        &&& zero::<T>().spec_lt(fitness_total(scored, scored.len()))
        &&& report == spec_report(scored, generation)
        &&& self.offspring(scored, fitness_total(scored, scored.len()), next, scored.len())
    }

    /// The step from a trained population to the next one can have gone so.
    pub open spec fn advanced(
        self,
        trained: Seq<Contestant<T>>,
        generation: i32,
        report: GenerationReport<T>,
        next: Seq<Contestant<T>>,
    ) -> bool {
        exists|scored: Seq<Contestant<T>>| #[trigger]
            self.advanced_by(trained, scored, generation, report, next)
    }

    /// The generations of `trace` went by and led to `bred`, which was
    /// trained and tested, then scored, and was then empty or had no fitness
    /// total above zero, so that nothing could be selected from it.
    pub open spec fn stalled_by(
        self,
        training: DataSet<T>,
        test: DataSet<T>,
        trace: Seq<Generation<T>>,
        bred: Seq<Contestant<T>>,
        trained: Seq<Contestant<T>>,
        scored: Seq<Contestant<T>>,
    ) -> bool {
        &&& self.traced(training, test, trace, bred)
        &&& bred.len() == self.population_len()
        &&& self.members(bred)
        &&& all_evaluated(training, test, bred, trained)
        &&& all_rescored(trained, scored)
        &&& scored.len() == 0 || !zero::<T>().spec_lt(fitness_total(scored, scored.len()))
    }

    /// The search can have stalled in the generation `generation`, with
    /// `scored` as its scored population: so many generations went by before.
    pub open spec fn stalled(
        self,
        training: DataSet<T>,
        test: DataSet<T>,
        generation: int,
        scored: Seq<Contestant<T>>,
    ) -> bool {
        exists|trace: Seq<Generation<T>>, bred: Seq<Contestant<T>>, trained: Seq<Contestant<T>>| #[trigger]
            self.stalled_by(training, test, trace, bred, trained, scored) && trace.len()
                == generation
    }

    /// The search can have run so: the generations of some trace went by
    /// and led to `population`, and `reports` holds their reports.
    pub open spec fn ran(
        self,
        training: DataSet<T>,
        test: DataSet<T>,
        reports: Seq<GenerationReport<T>>,
        population: Seq<Contestant<T>>,
    ) -> bool {
        exists|trace: Seq<Generation<T>>| #[trigger]
            self.traced(training, test, trace, population) && recorded(reports, trace)
    }
}

/// A trace that led to the population of a generation, with that
/// generation gone by, leads to what was bred from it.
pub proof fn lemma_trace_grows<T: Scalar>(
    settings: Settings<T>,
    training: DataSet<T>,
    test: DataSet<T>,
    earlier: Seq<Generation<T>>,
    passing: Generation<T>,
    next: Seq<Contestant<T>>,
)
    requires
        settings.traced(training, test, earlier, passing.bred),
        settings.passed(training, test, passing),
        settings.leads_to(passing, next),
        next.len() == settings.population_len(),
    ensures
        settings.traced(training, test, earlier.push(passing), next),
{
    let trace = earlier.push(passing);
    assert forall|g: int| 0 <= g < trace.len() implies settings.passed(
        training,
        test,
        #[trigger] trace[g],
    ) by {
        if g < earlier.len() {
            assert(trace[g] == earlier[g]);
        }
    }
    assert forall|g: int| 0 <= g < trace.len() - 1 implies settings.leads_to(
        #[trigger] trace[g],
        trace[g + 1].bred,
    ) by {
        assert(trace[g] == earlier[g]);
        if g + 1 < earlier.len() {
            assert(trace[g + 1] == earlier[g + 1]);
        } else {
            assert(trace[g] == earlier.last());
            assert(trace[g + 1] == passing);
        }
    }
    if earlier.len() > 0 {
        assert(trace[0] == earlier[0]);
    }
    assert(trace.last() == passing);
}

/// The reports of a trace, with the report of one more generation, are the
/// reports of the longer trace.
pub proof fn lemma_record_grows<T: Scalar>(
    reports: Seq<GenerationReport<T>>,
    earlier: Seq<Generation<T>>,
    entry: GenerationReport<T>,
    passing: Generation<T>,
)
    requires
        recorded(reports, earlier),
        entry == spec_report(passing.scored, reports.len() as i32),
    ensures
        recorded(reports.push(entry), earlier.push(passing)),
{
    let longer = reports.push(entry);
    let trace = earlier.push(passing);
    assert forall|g: int| 0 <= g < longer.len() implies #[trigger] longer[g] == spec_report(
        trace[g].scored,
        g as i32,
    ) by {
        if g < reports.len() {
            assert(longer[g] == reports[g]);
            assert(trace[g] == earlier[g]);
        }
    }
}

/// What one generation came to, after its candidates were trained and
/// scored and before the next generation was bred.
#[derive(Clone, Copy, Debug)]
pub struct GenerationReport<T> {
    pub generation: i32,
    /// The position of the candidate with the largest fitness.
    pub best: usize,
    pub best_cost: T,
    pub best_average_error: T,
    /// The position of the candidate that is the reference of the fitness:
    /// the one with the smallest cost.
    pub worst: usize,
    pub worst_cost: T,
    pub worst_average_error: T,
}

/// Why a run ended early, and where.
#[derive(Clone, Copy, Debug, PartialEq, Eq, Structural)]
pub struct Failure {
    pub kind: Error,
    pub generation: i32,
    pub contestant: usize,
}

/// The search: its settings, its data, and the current population.
pub struct EvolutionaryComputation<T> {
    pub population: Vec<Contestant<T>>,
    pub current_generation: i32,
    pub population_size: i32,
    pub input_size: i32,
    pub output_size: i32,
    pub max_epochs: i32,
    pub max_epochs_start: i32,
    pub min_epochs: i32,
    pub max_calculations: i32,
    pub max_calculations_start: i32,
    pub max_layer_count: i32,
    pub max_nodes: i32,
    pub max_nodes_start: i32,
    pub max_learning_rate: T,
    pub generations: i32,
    pub seed: i32,
    pub training_set: DataSet<T>,
    pub test_set: DataSet<T>,
}

impl<T: Scalar> EvolutionaryComputation<T> {
    /// The settings of this search.
    pub open spec fn settings(&self) -> Settings<T> {
        Settings {
            population_size: self.population_size,
            input_size: self.input_size,
            output_size: self.output_size,
            max_epochs: self.max_epochs,
            max_epochs_start: self.max_epochs_start,
            min_epochs: self.min_epochs,
            max_calculations: self.max_calculations,
            max_calculations_start: self.max_calculations_start,
            max_layer_count: self.max_layer_count,
            max_nodes: self.max_nodes,
            max_nodes_start: self.max_nodes_start,
            max_learning_rate: self.max_learning_rate,
            generations: self.generations,
            seed: self.seed,
        }
    }

    /// The settings allow a search.
    pub open spec fn valid(&self) -> bool {
        self.settings().valid()
    }

    /// The candidate is one of this search.
    pub open spec fn member(&self, c: Contestant<T>) -> bool {
        self.settings().member(c)
    }

    /// Every candidate of the population is one of this search.
    pub open spec fn members(&self, population: Seq<Contestant<T>>) -> bool {
        self.settings().members(population)
    }

    /// The samples of the training set and of the test set fit the sizes of
    /// input and output.
    pub open spec fn data_fit(&self) -> bool {
        &&& self.training_set.fits(self.input_size as nat, self.output_size as nat)
        &&& self.test_set.fits(self.input_size as nat, self.output_size as nat)
    }

    /// Both searches have the same settings and the same data.
    pub open spec fn same_settings(&self, other: &EvolutionaryComputation<T>) -> bool {
        &&& self.settings() == other.settings()
        &&& self.training_set == other.training_set
        &&& self.test_set == other.test_set
    }

    /// The search with the given settings and data and an empty population.
    pub fn new(
        training_set: DataSet<T>,
        seed: i32,
        generations: i32,
        population_size: i32,
        input_size: i32,
        output_size: i32,
        max_epochs: i32,
        max_epochs_start: i32,
        max_calculations: i32,
        max_calculations_start: i32,
        max_layer_count: i32,
        max_nodes: i32,
        max_nodes_start: i32,
        max_learning_rate: T,
        min_epochs: i32,
        test_set: DataSet<T>,
    ) -> (r: EvolutionaryComputation<T>)
        ensures
            r.population@.len() == 0,
            r.current_generation == 0,
            r.population_size == population_size,
            r.input_size == input_size,
            r.output_size == output_size,
            r.max_epochs == max_epochs,
            r.max_epochs_start == max_epochs_start,
            r.min_epochs == min_epochs,
            r.max_calculations == max_calculations,
            r.max_calculations_start == max_calculations_start,
            r.max_layer_count == max_layer_count,
            r.max_nodes == max_nodes,
            r.max_nodes_start == max_nodes_start,
            r.max_learning_rate == max_learning_rate,
            r.generations == generations,
            r.seed == seed,
            r.training_set == training_set,
            r.test_set == test_set,
    {
        EvolutionaryComputation {
            population: Vec::new(),
            current_generation: 0,
            population_size,
            input_size,
            output_size,
            max_epochs,
            max_epochs_start,
            min_epochs,
            max_calculations,
            max_calculations_start,
            max_layer_count,
            max_nodes,
            max_nodes_start,
            max_learning_rate,
            generations,
            seed,
            training_set,
            test_set,
        }
    }

    /// Whether the settings allow a search.
    pub fn is_valid(&self) -> (r: bool)
        ensures
            r == self.valid(),
    {
        let a = if self.max_nodes > self.max_nodes_start {
            self.max_nodes
        } else {
            self.max_nodes_start
        };
        let b = if self.input_size > self.output_size {
            self.input_size
        } else {
            self.output_size
        };
        let c = if a > b {
            a
        } else {
            b
        };
        let limit: u64 = if c > MIN_NODES {
            c as u64
        } else {
            MIN_NODES as u64
        };
        assert(limit == self.settings().node_limit());
        assert(limit * limit <= 0x4000_0000_0000_0000) by (nonlinear_arith)
            requires
                0 <= limit <= 0x8000_0000,
        ;
        (self.max_layer_count <= 0 || self.max_nodes_start > 0) && self.min_epochs
            < self.max_epochs_start && self.input_size >= 0
            && self.output_size >= 0 && limit * limit <= usize::MAX as u64
    }

    /// The candidate with the largest fitness, the first of them where
    /// several have it.
    pub fn get_best(population: &Vec<Contestant<T>>) -> (r: &Contestant<T>)
        requires
            population@.len() > 0,
        ensures
            *r == population@[fittest(population@, population@.len())],
    {
        &population[fittest_index(population)]
    }

    /// The candidate with the smallest cost, the first of them where
    /// several have it: the reference of the fitness.
    pub fn get_worst(population: &Vec<Contestant<T>>) -> (r: &Contestant<T>)
        requires
            population@.len() > 0,
        ensures
            *r == population@[cheapest(population@, population@.len())],
    {
        &population[cheapest_index(population)]
    }

    /// Prunes active genes, each chosen at random among those that are active,
    /// until the network that the genome encodes has no more than `budget`
    /// weights and biases, or no gene is active.
    pub fn repair(layer_sizes: Vec<i32>, budget: i32, input_size: i32, output_size: i32) -> (r: Vec<i32>)
        ensures
            thinned(r@, layer_sizes@),
            repaired(r@, budget, input_size, output_size),
            repairs_to(layer_sizes@, r@, budget, input_size, output_size),
            genome_cost(layer_sizes@, input_size, output_size) <= budget ==> r@ == layer_sizes@,
    {
        let mut genome = layer_sizes;
        let ghost mut path: Seq<Seq<i32>> = seq![layer_sizes@];
        loop
            invariant
                thinned(genome@, layer_sizes@),
                path.len() > 0,
                path[0] == layer_sizes@,
                path.last() == genome@,
                forall|k: int|
                    0 <= k < path.len() - 1 ==> prune_step(
                        #[trigger] path[k],
                        path[k + 1],
                        budget,
                        input_size,
                        output_size,
                    ),
                genome_cost(layer_sizes@, input_size, output_size) <= budget ==> path.len() == 1,
            ensures
                repaired(genome@, budget, input_size, output_size),
                repair_path(path, budget, input_size, output_size),
            decreases active_indices(genome@).len(),
        {
            let from_layer = Contestant::<T>::from_layer_sizes(genome.clone());
            let count = Contestant::<T>::calculations_calculator(
                Contestant::<T>::add_io(from_layer.1, input_size, output_size),
            );
            if count <= budget as i128 || from_layer.0.len() == 0 {
                proof {
                    lemma_active_indices(genome@);
                }
                break;
            }
            let pick = random_index(from_layer.0.len());
            let ghost before = genome@;
            let ghost earlier = path;
            proof {
                lemma_active_indices(before);
                lemma_prune(before, active_indices(before)[pick as int] as int);
            }
            genome = Self::prune(genome, pick);
            proof {
                path = earlier.push(genome@);
                assert(genome@ == spec_prune(before, pick as int));
                assert(prune_step(before, genome@, budget, input_size, output_size));
                assert forall|k: int| 0 <= k < path.len() - 1 implies prune_step(
                    #[trigger] path[k],
                    path[k + 1],
                    budget,
                    input_size,
                    output_size,
                ) by {
                    if k < earlier.len() - 1 {
                        assert(path[k] == earlier[k]);
                        assert(path[k + 1] == earlier[k + 1]);
                    } else {
                        assert(path[k] == before);
                        assert(path[k + 1] == genome@);
                    }
                }
                assert(path[0] == earlier[0]);
            }
        }
        genome
    }

    /// Prunes the active gene of rank `pick`, the active genes counted from
    /// the front, starting with rank 0.
    pub fn prune(layer_sizes: Vec<i32>, pick: usize) -> (r: Vec<i32>)
        requires
            pick < active_indices(layer_sizes@).len(),
        ensures
            r@ == spec_prune(layer_sizes@, pick as int),
    {
        let lookup = Contestant::<T>::from_layer_sizes(layer_sizes.clone()).0;
        proof {
            lemma_active_indices(layer_sizes@);
        }
        let mut genome = layer_sizes;
        genome.set(lookup[pick], 0);
        genome
    }

    /// Changes `current` at random: draws from `[0, 1)` and applies
    /// [`apply_change`]. The result lies between `min` and `max` wherever
    /// `min` is not above `max`.
    pub fn calculate_change(&self, min: T, max: T, current: T, fitness: T) -> (r: T)
        ensures
            changed(min, max, current, fitness, r),
            at_most(min, max) ==> within(r, min, max),
    {
        let draw = random_unit::<T>();
        let r = apply_change(min, max, current, fitness, draw);
        assert(r == spec_change(min, max, current, fitness, draw));
        r
    }

    /// Merges two values at random: draws twice from `[0, 1)` and applies
    /// [`merge_with`].
    pub fn merge(a: T, b: T) -> (r: T)
        ensures
            merged(a, b, r),
    {
        let keep = random_unit::<T>();
        let side = random_unit::<T>();
        let r = merge_with(a, b, keep, side);
        assert(r == spec_merge(a, b, keep, side));
        r
    }

    /// Selects a candidate with a chance in proportion to its fitness:
    /// draws a goal from zero up to the sum of the fitness and walks the
    /// population with [`select_at`]. Returns `EmptyPopulationSelection` where
    /// the population is empty or the sum is not above zero.
    pub fn contestant_int(&self, population: &Vec<Contestant<T>>, fitness_sum: T) -> (r: Result<
        usize,
        Error,
    >)
        ensures
            population@.len() == 0 || !zero::<T>().spec_lt(fitness_sum) ==> r == Err::<usize, Error>(
                Error::EmptyPopulationSelection,
            ),
            population@.len() > 0 && zero::<T>().spec_lt(fitness_sum) ==> r is Ok && picked(
                population@,
                fitness_sum,
                r->Ok_0 as int,
            ),
    {
        if population.len() == 0 || !T::from_ratio(0, 1).less_than(fitness_sum) {
            return Err(Error::EmptyPopulationSelection);
        }
        let draw = random_unit::<T>();
        let point = select_at(population, draw.mul(fitness_sum));
        assert(is_unit(draw) && selects(population@, draw.spec_mul(fitness_sum), point as int));
        Ok(point)
    }

    /// A fresh random candidate: genes drawn from zero up to the first node
    /// limit, repaired to the first budget, then thinned by pruning every
    /// active gene with one chance that is drawn for the whole genome.
    pub fn generate_random_start(&self) -> (r: Contestant<T>)
        requires
            self.valid(),
        ensures
            self.settings().fresh(r),
    {
        let mut drawn: Vec<i32> = Vec::new();
        let mut i: i32 = 0;
        while i < self.max_layer_count
            invariant
                self.valid(),
                0 <= i,
                i <= self.max_layer_count || i == 0,
                drawn@.len() == i,
                forall|k: int| 0 <= k < drawn@.len() ==> 0 <= #[trigger] drawn@[k] < self.max_nodes_start,
            decreases self.max_layer_count - i,
        {
            drawn.push(random_range(0, self.max_nodes_start));
            i = i + 1;
        }
        let ghost first = drawn@;
        let fitting = Self::repair(drawn, self.max_calculations_start, self.input_size, self.output_size);
        let active = Contestant::<T>::from_layer_sizes(fitting.clone()).0.len();
        let keep_rate = random_unit::<T>();
        let mut draws: Vec<T> = Vec::new();
        while draws.len() < active
            invariant
                draws@.len() <= active,
                all_units(draws@),
            decreases active - draws@.len(),
        {
            draws.push(random_unit::<T>());
        }
        let ghost before = fitting@;
        let layer_sizes = thin_with(fitting, keep_rate, &draws);
        let epochs = random_range(self.min_epochs, self.max_epochs_start);
        let draw = random_unit::<T>();
        let rate = draw.mul(self.max_learning_rate);
        proof {
            assert forall|p: int| 0 <= p < layer_sizes@.len() implies 0 <= #[trigger] layer_sizes@[p]
                < self.max_nodes_start by {
                assert(layer_sizes@[p] == before[p] || layer_sizes@[p] == 0);
                assert(before[p] == first[p] || before[p] == 0);
            }
            lemma_admitted_buildable(
                layer_sizes@,
                self.settings().node_limit(),
                self.input_size,
                self.output_size,
            );
        }
        let ghost genome = layer_sizes@;
        let r = Contestant::new(epochs, self.seed, layer_sizes, rate, self.input_size, self.output_size);
        proof {
            assert(r.layer_sizes@ == genome);
            let settings = self.settings();
            assert(settings.start_of(first, before, keep_rate, draws@, r.layer_sizes@));
            assert(settings.started(r.layer_sizes@));
            assert(is_unit(draw) && r.learning_rate == draw.spec_mul(self.max_learning_rate));
            assert(scaled_unit(r.learning_rate, self.max_learning_rate));
        }
        r
    }

    /// A child of two parents: every gene from one of them, each with even
    /// chance; epochs, seed and learning rate merged.
    pub fn sexual_reproduction(&self, a: &Contestant<T>, b: &Contestant<T>) -> (r: Contestant<T>)
        requires
            self.valid(),
            self.member(*a),
            self.member(*b),
        ensures
            self.settings().crossing_of(*a, *b, r),
    {
        let mut layer_sizes: Vec<i32> = Vec::new();
        let mut i: usize = 0;
        let count: usize = a.layer_sizes.len();
        while i < count
            invariant
                i <= count,
                count == a.layer_sizes@.len(),
                count == b.layer_sizes@.len(),
                layer_sizes@.len() == i,
                forall|k: int|
                    0 <= k < i ==> crossed_gene::<T>(
                        a.layer_sizes@[k],
                        b.layer_sizes@[k],
                        #[trigger] layer_sizes@[k],
                    ),
            decreases count - i,
        {
            let draw = random_unit::<T>();
            let gene = cross_gene(a.layer_sizes[i], b.layer_sizes[i], draw);
            assert(is_unit(draw) && gene == spec_cross_gene(a.layer_sizes@[i as int], b.layer_sizes@[i as int], draw));
            layer_sizes.push(gene);
            i = i + 1;
        }
        let epochs_value = Self::merge(T::from_ratio(a.epochs as i64, 1), T::from_ratio(b.epochs as i64, 1));
        let seed_value = Self::merge(T::from_ratio(a.seed as i64, 1), T::from_ratio(b.seed as i64, 1));
        let rate = Self::merge(a.learning_rate, b.learning_rate);
        proof {
            assert forall|p: int| 0 <= p < layer_sizes@.len() implies #[trigger] layer_sizes@[p]
                <= self.settings().node_limit() by {
                assert(crossed_gene::<T>(a.layer_sizes@[p], b.layer_sizes@[p], layer_sizes@[p]));
                assert(a.layer_sizes@[p] <= self.settings().node_limit());
                assert(b.layer_sizes@[p] <= self.settings().node_limit());
            }
            lemma_admitted_buildable(
                layer_sizes@,
                self.settings().node_limit(),
                self.input_size,
                self.output_size,
            );
        }
        let epochs = epochs_value.truncate();
        let seed = seed_value.truncate();
        assert(merged(whole::<T>(a.epochs as i64), whole::<T>(b.epochs as i64), epochs_value) && epochs
            == epochs_value.spec_truncate());
        assert(merged(whole::<T>(a.seed as i64), whole::<T>(b.seed as i64), seed_value) && seed
            == seed_value.spec_truncate());
        Contestant::new(epochs, seed, layer_sizes, rate, self.input_size, self.output_size)
    }

    /// A mutated copy of a candidate. For every gene a keep draw, a changed
    /// value between 1 and the node limit and a fresh value are drawn, and
    /// [`mutated_gene`] gives the gene from them; the integer part of a
    /// changed value is held to the interval of the change. The genome is
    /// then repaired to the budget. The epochs are changed between 1 and the
    /// epoch limit, and their integer part is held to that interval; the
    /// learning rate is changed between zero and its limit; the seed is that
    /// of the search.
    pub fn mutate(&self, contestant: &Contestant<T>) -> (r: Contestant<T>)
        requires
            self.valid(),
            self.member(*contestant),
        ensures
            self.settings().mutation_of(*contestant, r),
    {
        let mut layer_sizes: Vec<i32> = contestant.layer_sizes.clone();
        let count: usize = layer_sizes.len();
        let one_value = T::from_ratio(1, 1);
        let mut i: usize = 0;
        while i < count
            invariant
                self.valid(),
                i <= count,
                count == contestant.layer_sizes@.len(),
                count == self.settings().genome_len(),
                layer_sizes@.len() == count,
                one_value == one::<T>(),
                self.settings().admits(contestant.layer_sizes@),
                self.settings().admits(layer_sizes@),
                forall|k: int|
                    0 <= k < i ==> self.settings().gene_outcome(
                        contestant.layer_sizes@[k],
                        contestant.fitness,
                        #[trigger] layer_sizes@[k],
                    ),
                forall|k: int| i <= k < count ==> #[trigger] layer_sizes@[k] == contestant.layer_sizes@[k],
            decreases count - i,
        {
            let gene = layer_sizes[i];
            let keep = random_unit::<T>();
            let value = self.calculate_change(
                one_value,
                T::from_ratio(self.max_nodes as i64, 1),
                T::from_ratio(gene as i64, 1),
                contestant.fitness,
            );
            let fresh = random_range(0, self.max_nodes_start);
            let next = mutated_gene(self.max_nodes, gene, keep, value, fresh);
            layer_sizes.set(i, next);
            assert(self.settings().gene_from(gene, contestant.fitness, keep, value, fresh, next));
            i = i + 1;
        }
        let ghost changed_genome = layer_sizes@;
        let layer_sizes = Self::repair(
            layer_sizes,
            self.max_calculations,
            self.input_size,
            self.output_size,
        );
        let epochs_value = self.calculate_change(
            one_value,
            T::from_ratio(self.max_epochs as i64, 1),
            T::from_ratio(contestant.epochs as i64, 1),
            contestant.fitness,
        );
        let rate = self.calculate_change(
            T::from_ratio(0, 1),
            self.max_learning_rate,
            contestant.learning_rate,
            contestant.fitness,
        );
        proof {
            assert forall|p: int| 0 <= p < layer_sizes@.len() implies #[trigger] layer_sizes@[p]
                <= self.settings().node_limit() by {
                assert(layer_sizes@[p] == changed_genome[p] || layer_sizes@[p] == 0);
                assert(changed_genome[p] <= self.settings().node_limit());
            }
            lemma_admitted_buildable(
                layer_sizes@,
                self.settings().node_limit(),
                self.input_size,
                self.output_size,
            );
        }
        let epochs = limit_gene(epochs_value.truncate(), self.max_epochs);
        assert(changed(
            one::<T>(),
            whole::<T>(self.max_epochs as i64),
            whole::<T>(contestant.epochs as i64),
            contestant.fitness,
            epochs_value,
        ) && epochs == spec_limit_gene(epochs_value.spec_truncate(), self.max_epochs));
        let r = Contestant::new(epochs, self.seed, layer_sizes, rate, self.input_size, self.output_size);
        assert(self.settings().mutation_by(*contestant, changed_genome, r));
        r
    }

    /// Breeds as many children as there are candidates. For each child a
    /// parent is selected and a draw gives the mode by [`reproduction_mode`]:
    /// a mutated copy of the parent, a mutated crossing of the parent with a
    /// second selected parent, or a fresh random candidate. Returns `EmptyPopulationSelection` where the
    /// population is empty or `fitness_sum` is not above zero.
    pub fn breed(&self, population: &Vec<Contestant<T>>, fitness_sum: T) -> (r: Result<
        Vec<Contestant<T>>,
        Error,
    >)
        requires
            self.valid(),
            self.members(population@),
        ensures
            population@.len() == 0 || !zero::<T>().spec_lt(fitness_sum) ==> r is Err && r->Err_0
                == Error::EmptyPopulationSelection,
            population@.len() > 0 && zero::<T>().spec_lt(fitness_sum) ==> r is Ok
                && self.settings().offspring(population@, fitness_sum, r->Ok_0@, population@.len()),
    {
        if population.len() == 0 || !T::from_ratio(0, 1).less_than(fitness_sum) {
            return Err(Error::EmptyPopulationSelection);
        }
        let mut next_population: Vec<Contestant<T>> = Vec::new();
        let mut i: usize = 0;
        while i < population.len()
            invariant
                self.valid(),
                self.members(population@),
                population@.len() > 0,
                zero::<T>().spec_lt(fitness_sum),
                i <= population@.len(),
                self.settings().offspring(population@, fitness_sum, next_population@, i as nat),
            decreases population@.len() - i,
        {
            let point = match self.contestant_int(population, fitness_sum) {
                Ok(point) => point,
                Err(_) => vstd::pervasive::unreached(),
            };
            let r_number = random_unit::<T>();
            let child = match reproduction_mode(r_number) {
                Mode::Asexual => {
                    let child = self.mutate(&population[point]);
                    assert(self.settings().child_by(
                        population@,
                        fitness_sum,
                        r_number,
                        point as int,
                        point as int,
                        child,
                        child,
                    ));
                    child
                },
                Mode::Sexual => {
                    let point2 = match self.contestant_int(population, fitness_sum) {
                        Ok(point2) => point2,
                        Err(_) => vstd::pervasive::unreached(),
                    };
                    let crossed = self.sexual_reproduction(&population[point], &population[point2]);
                    let child = self.mutate(&crossed);
                    assert(self.settings().child_by(
                        population@,
                        fitness_sum,
                        r_number,
                        point as int,
                        point2 as int,
                        crossed,
                        child,
                    ));
                    child
                },
                Mode::Fresh => {
                    let child = self.generate_random_start();
                    assert(self.settings().child_by(
                        population@,
                        fitness_sum,
                        r_number,
                        point as int,
                        point as int,
                        child,
                        child,
                    ));
                    child
                },
            };
            assert(self.settings().child_of(population@, fitness_sum, child));
            let ghost bred = next_population@;
            next_population.push(child);
            proof {
                assert forall|k: int| 0 <= k < next_population@.len() implies self.member(
                    #[trigger] next_population@[k],
                ) && self.settings().child_of(population@, fitness_sum, next_population@[k]) by {
                    if k < bred.len() {
                        assert(next_population@[k] == bred[k]);
                    }
                }
            }
            i = i + 1;
        }
        Ok(next_population)
    }

    /// Scores the population with [`score`] and breeds the next one with
    /// [`EvolutionaryComputation::breed`].
    pub fn next_gen(&self, population: &mut Vec<Contestant<T>>) -> (r: Result<Vec<Contestant<T>>, Error>)
        requires
            self.valid(),
            self.members(old(population)@),
        ensures
            all_rescored(old(population)@, final(population)@),
            self.members(final(population)@),
            ({
                let fitness_sum = fitness_total(final(population)@, final(population)@.len());
                &&& old(population)@.len() == 0 || !zero::<T>().spec_lt(fitness_sum) ==> r is Err
                    && r->Err_0 == Error::EmptyPopulationSelection
                &&& old(population)@.len() > 0 && zero::<T>().spec_lt(fitness_sum) ==> r is Ok
                    && self.settings().offspring(
                    final(population)@,
                    fitness_sum,
                    r->Ok_0@,
                    old(population)@.len(),
                )
            }),
    {
        let fitness_sum = score(population);
        self.breed(population, fitness_sum)
    }

    /// Has every candidate of the population trained on the training set
    /// and scored on the test set, one after another. Returns a
    /// `DimensionMismatch` failure, and changes nothing, where there is a
    /// candidate and the samples do not fit the sizes of input and output.
    pub fn evaluate(&mut self) -> (r: Result<(), Failure>)
        requires
            old(self).valid(),
            old(self).members(old(self).population@),
        ensures
            final(self).same_settings(old(self)),
            final(self).current_generation == old(self).current_generation,
            final(self).population@.len() == old(self).population@.len(),
            final(self).members(final(self).population@),
            old(self).population@.len() == 0 || old(self).data_fit() ==> r is Ok && all_evaluated(
                old(self).training_set,
                old(self).test_set,
                old(self).population@,
                final(self).population@,
            ),
            old(self).population@.len() > 0 && !old(self).data_fit() ==> r == Err::<(), Failure>(
                Failure {
                    kind: Error::DimensionMismatch,
                    generation: old(self).current_generation,
                    contestant: 0,
                },
            ) && final(self).population == old(self).population,
    {
        if self.population.len() == 0 {
            return Ok(());
        }
        if !self.training_set.conforms(self.input_size as usize, self.output_size as usize)
            || !self.test_set.conforms(self.input_size as usize, self.output_size as usize) {
            return Err(
                Failure {
                    kind: Error::DimensionMismatch,
                    generation: self.current_generation,
                    contestant: 0,
                },
            );
        }
        let mut i: usize = 0;
        while i < self.population.len()
            invariant
                self.valid(),
                self.same_settings(old(self)),
                self.current_generation == old(self).current_generation,
                self.data_fit(),
                i <= self.population@.len(),
                self.population@.len() == old(self).population@.len(),
                forall|k: int|
                    0 <= k < i ==> evaluated(
                        old(self).training_set,
                        old(self).test_set,
                        old(self).population@[k],
                        #[trigger] self.population@[k],
                    ),
                forall|k: int|
                    i <= k < self.population@.len() ==> #[trigger] self.population@[k] == old(
                        self,
                    ).population@[k],
                old(self).members(old(self).population@),
            decreases self.population@.len() - i,
        {
            assert(self.member(self.population@[i as int]));
            let _ = self.population[i].fit(&self.training_set, &self.test_set);
            i = i + 1;
        }
        Ok(())
    }

    /// Whether the candidate is one of this search.
    pub fn is_member(&self, c: &Contestant<T>) -> (r: bool)
        ensures
            r == self.member(*c),
    {
        if !c.is_wf() {
            return false;
        }
        let genes: usize = if self.max_layer_count > 0 {
            self.max_layer_count as usize
        } else {
            0
        };
        if c.layers[0] != self.input_size || c.layers[c.layers.len() - 1] != self.output_size
            || c.layer_sizes.len() != genes {
            return false;
        }
        let a = if self.max_nodes > self.max_nodes_start {
            self.max_nodes
        } else {
            self.max_nodes_start
        };
        let b = if self.input_size > self.output_size {
            self.input_size
        } else {
            self.output_size
        };
        let c_limit = if a > b {
            a
        } else {
            b
        };
        let limit = if c_limit > MIN_NODES {
            c_limit
        } else {
            MIN_NODES
        };
        assert(limit == self.settings().node_limit());
        let mut k: usize = 0;
        while k < c.layer_sizes.len()
            invariant
                k <= c.layer_sizes@.len(),
                limit == self.settings().node_limit(),
                forall|p: int| 0 <= p < k ==> #[trigger] c.layer_sizes@[p] <= limit,
            decreases c.layer_sizes@.len() - k,
        {
            if c.layer_sizes[k] > limit {
                return false;
            }
            k = k + 1;
        }
        true
    }

    /// Puts the candidates in the place of the population, if they are as
    /// many as the population has and each is one of this search; else
    /// leaves the population as it is. Says which it did.
    pub fn install(&mut self, candidates: Vec<Contestant<T>>) -> (done: bool)
        ensures
            final(self).same_settings(old(self)),
            final(self).current_generation == old(self).current_generation,
            done == (candidates@.len() == old(self).population@.len() && old(self).members(
                candidates@,
            )),
            done ==> final(self).population == candidates,
            !done ==> final(self).population == old(self).population,
    {
        if candidates.len() != self.population.len() {
            return false;
        }
        let mut k: usize = 0;
        while k < candidates.len()
            invariant
                k <= candidates@.len(),
                *self == *old(self),
                forall|p: int| 0 <= p < k ==> self.member(#[trigger] candidates@[p]),
            decreases candidates@.len() - k,
        {
            if !self.is_member(&candidates[k]) {
                return false;
            }
            k = k + 1;
        }
        self.population = candidates;
        true
    }

    /// The step from a trained population to the next one: scores the
    /// population, reports on it, and breeds the next population in its
    /// place. Returns an `EmptyPopulationSelection` failure, and leaves the
    /// scored population in place, where the population is empty or its
    /// fitness total is not above zero.
    pub fn advance(&mut self) -> (r: Result<GenerationReport<T>, Failure>)
        requires
            old(self).valid(),
            old(self).members(old(self).population@),
        ensures
            final(self).same_settings(old(self)),
            final(self).current_generation == old(self).current_generation,
            final(self).members(final(self).population@),
            r is Ok ==> final(self).population@.len() == old(self).population@.len() && old(
                self,
            ).settings().advanced(
                old(self).population@,
                old(self).current_generation,
                r->Ok_0,
                final(self).population@,
            ),
            r is Err ==> {
                &&& r->Err_0 == (Failure {
                    kind: Error::EmptyPopulationSelection,
                    generation: old(self).current_generation,
                    contestant: 0,
                })
                &&& all_rescored(old(self).population@, final(self).population@)
                &&& final(self).population@.len() == 0 || !zero::<T>().spec_lt(
                    fitness_total(final(self).population@, final(self).population@.len()),
                )
            },
    {
        let generation = self.current_generation;
        let ghost trained = self.population@;
        let fitness_sum = score(&mut self.population);
        let ghost scored = self.population@;
        if self.population.len() == 0 {
            return Err(Failure { kind: Error::EmptyPopulationSelection, generation, contestant: 0 });
        }
        let entry = Self::report(&self.population, generation);
        match self.breed(&self.population, fitness_sum) {
            Ok(next) => {
                self.population = next;
            },
            Err(kind) => {
                return Err(Failure { kind, generation, contestant: 0 });
            },
        }
        assert(self.settings().advanced_by(trained, scored, generation, entry, self.population@));
        Ok(entry)
    }

    /// The report on a scored population.
    pub fn report(population: &Vec<Contestant<T>>, generation: i32) -> (r: GenerationReport<T>)
        requires
            population@.len() > 0,
        ensures
            r == spec_report(population@, generation),
    {
        let best = fittest_index(population);
        let worst = cheapest_index(population);
        GenerationReport {
            generation,
            best,
            best_cost: population[best].cost,
            best_average_error: population[best].average_error,
            worst,
            worst_cost: population[worst].cost,
            worst_average_error: population[worst].average_error,
        }
    }

    /// Seeds the population with fresh random candidates, as many as the
    /// population size.
    pub fn seed_population(&mut self)
        requires
            old(self).valid(),
        ensures
            final(self).same_settings(old(self)),
            final(self).current_generation == old(self).current_generation,
            final(self).population@.len() == (if old(self).population_size > 0 {
                old(self).population_size as int
            } else {
                0
            }),
            final(self).members(final(self).population@),
            final(self).settings().all_fresh(final(self).population@),
    {
        self.population = Vec::new();
        let mut i: i32 = 0;
        while i < self.population_size
            invariant
                self.valid(),
                self.same_settings(old(self)),
                self.current_generation == old(self).current_generation,
                0 <= i,
                i <= self.population_size || i == 0,
                self.population@.len() == i,
                self.members(self.population@),
                self.settings().all_fresh(self.population@),
            decreases self.population_size - i,
        {
            let fresh = self.generate_random_start();
            let ghost seeded = self.population@;
            self.population.push(fresh);
            proof {
                assert forall|k: int| 0 <= k < self.population@.len() implies self.settings().fresh(
                    #[trigger] self.population@[k],
                ) by {
                    if k < seeded.len() {
                        assert(self.population@[k] == seeded[k]);
                    }
                }
            }
            i = i + 1;
        }
    }

    /// Runs the search: seeds the population, then for every generation has
    /// the candidates trained and scored, turns the costs into fitness,
    /// reports the best and the reference candidate, and breeds the next
    /// population. Returns the reports, one for each generation, or the first
    /// failure.
    pub fn run(&mut self) -> (r: Result<Vec<GenerationReport<T>>, Failure>)
        requires
            old(self).valid(),
        ensures
            final(self).same_settings(old(self)),
            final(self).members(final(self).population@),
            old(self).generations <= 0 ==> r is Ok && r->Ok_0@.len() == 0,
            r is Ok ==> {
                &&& r->Ok_0@.len() == (if old(self).generations > 0 {
                    old(self).generations as int
                } else {
                    0
                })
                &&& final(self).population@.len() == (if old(self).population_size > 0 {
                    old(self).population_size as int
                } else {
                    0
                })
                &&& old(self).generations > 0 ==> old(self).population_size > 0 && old(self).data_fit()
                &&& old(self).settings().ran(
                    old(self).training_set,
                    old(self).test_set,
                    r->Ok_0@,
                    final(self).population@,
                )
            },
            final(self).population@.len() == old(self).settings().population_len(),
            r is Ok && old(self).generations > 0 ==> final(self).current_generation == old(
                self,
            ).generations - 1,
            old(self).generations <= 0 ==> final(self).current_generation == old(self).current_generation,
            r is Err ==> {
                &&& 0 <= r->Err_0.generation < old(self).generations
                &&& r->Err_0.contestant == 0
                &&& final(self).current_generation == r->Err_0.generation
                &&& r->Err_0.kind == Error::DimensionMismatch || r->Err_0.kind
                    == Error::EmptyPopulationSelection
            },
            r is Err && r->Err_0.kind == Error::DimensionMismatch ==> {
                &&& !old(self).data_fit()
                &&& old(self).population_size > 0
                &&& r->Err_0.generation == 0
                &&& old(self).settings().all_fresh(final(self).population@)
            },
            r is Err && r->Err_0.kind == Error::EmptyPopulationSelection ==> old(self).settings().stalled(
                old(self).training_set,
                old(self).test_set,
                r->Err_0.generation as int,
                final(self).population@,
            ),
            old(self).generations > 0 && old(self).population_size <= 0 ==> r == Err::<
                Vec<GenerationReport<T>>,
                Failure,
            >(Failure { kind: Error::EmptyPopulationSelection, generation: 0, contestant: 0 }),
            old(self).generations > 0 && old(self).population_size > 0 && !old(self).data_fit() ==> r
                == Err::<Vec<GenerationReport<T>>, Failure>(
                Failure { kind: Error::DimensionMismatch, generation: 0, contestant: 0 },
            ),
    {
        self.seed_population();
        let ghost settings = self.settings();
        let ghost training = self.training_set;
        let ghost test = self.test_set;
        let ghost mut trace: Seq<Generation<T>> = Seq::empty();
        let mut reports: Vec<GenerationReport<T>> = Vec::new();
        let mut generation: i32 = 0;
        while generation < self.generations
            invariant
                self.valid(),
                self.same_settings(old(self)),
                self.settings() == settings,
                self.training_set == training,
                self.test_set == test,
                self.members(self.population@),
                0 <= generation,
                generation <= self.generations || generation == 0,
                reports@.len() == generation,
                self.population@.len() == (if self.population_size > 0 {
                    self.population_size as int
                } else {
                    0
                }),
                generation > 0 ==> self.population_size > 0 && self.data_fit(),
                settings.traced(training, test, trace, self.population@),
                recorded(reports@, trace),
                generation == 0 ==> self.current_generation == old(self).current_generation,
                generation > 0 ==> self.current_generation == generation - 1,
            decreases self.generations - generation,
        {
            self.current_generation = generation;
            let ghost bred = self.population@;
            match self.evaluate() {
                Ok(()) => {},
                Err(failure) => {
                    return Err(failure);
                },
            }
            let ghost trained = self.population@;
            let entry = match self.advance() {
                Ok(entry) => entry,
                Err(failure) => {
                    assert(settings.stalled_by(training, test, trace, bred, trained, self.population@));
                    return Err(failure);
                },
            };
            let ghost scored = choose|scored: Seq<Contestant<T>>|
                settings.advanced_by(trained, scored, generation, entry, self.population@);
            let ghost earlier = trace;
            let ghost passing = Generation { bred, trained, scored };
            let ghost told = reports@;
            reports.push(entry);
            proof {
                assert(settings.passed(training, test, passing)) by {
                    reveal(Settings::passed);
                }
                assert(settings.leads_to(passing, self.population@)) by {
                    reveal(Settings::leads_to);
                }
                lemma_trace_grows(settings, training, test, earlier, passing, self.population@);
                lemma_record_grows(told, earlier, entry, passing);
                trace = earlier.push(passing);
            }
            generation = generation + 1;
        }
        proof {
            assert(settings.traced(training, test, trace, self.population@) && recorded(reports@, trace));
        }
        Ok(reports)
    }
}

} // verus!
