//! One candidate of the search: a genome of layer sizes, the network that it
//! encodes, and the scores of that network.
use vstd::prelude::*;
use crate::error::Error;
use crate::nn::data_set::DataSet;
use crate::nn::neural_network::{
    fitted, initial, prediction, Net, NeuralNetwork,
};
use crate::scalar::{one, same_rank, whole, zero, equal_rank, Scalar};

verus! {

/// The smallest size that an active layer is given.
pub const MIN_NODES: i32 = 7;

/// The size that an active gene stands for: the gene, raised to
/// [`MIN_NODES`] where it is below.
pub open spec fn clamped(gene: i32) -> i32 {
    if gene < MIN_NODES {
        MIN_NODES
    } else {
        gene
    }
}

/// The positions of the genes that are not zero, in ascending order.
pub open spec fn active_indices(genome: Seq<i32>) -> Seq<usize>
    decreases genome.len(),
{
    if genome.len() == 0 {
        Seq::empty()
    } else if genome.last() != 0 {
        active_indices(genome.drop_last()).push((genome.len() - 1) as usize)
    } else {
        active_indices(genome.drop_last())
    }
}

/// The sizes that the genes that are not zero stand for, in genome order.
pub open spec fn active_values(genome: Seq<i32>) -> Seq<i32>
    decreases genome.len(),
{
    if genome.len() == 0 {
        Seq::empty()
    } else if genome.last() != 0 {
        active_values(genome.drop_last()).push(clamped(genome.last()))
    } else {
        active_values(genome.drop_last())
    }
}

/// The layer sequence of a network: the input size, the hidden layers, the
/// output size.
pub open spec fn with_io(hidden: Seq<i32>, input_size: i32, output_size: i32) -> Seq<i32> {
    seq![input_size] + hidden + seq![output_size]
}

/// The number of weights and biases of a network with the given layers: for
/// every layer after the first, its size times the size of the layer before
/// it, plus its size.
pub open spec fn spec_calculations(layers: Seq<i32>) -> int
    decreases layers.len(),
{
    if layers.len() < 2 {
        0
    } else {
        spec_calculations(layers.drop_last()) + layers.last() * layers[layers.len() - 2]
            + layers.last()
    }
}

/// The number of weights and biases of the network that a genome encodes
/// between the given input and output sizes.
pub open spec fn genome_cost(genome: Seq<i32>, input_size: i32, output_size: i32) -> int {
    spec_calculations(with_io(active_values(genome), input_size, output_size))
}

/// The active positions are as many as the active values, ascend, and each
/// points at a gene that is not zero and that its value comes from.
pub proof fn lemma_active_indices(genome: Seq<i32>)
    requires
        genome.len() <= usize::MAX,
    ensures
        active_indices(genome).len() == active_values(genome).len(),
        active_indices(genome).len() <= genome.len(),
        forall|k: int|
            0 <= k < active_indices(genome).len() ==> {
                &&& (#[trigger] active_indices(genome)[k]) < genome.len()
                &&& genome[active_indices(genome)[k] as int] != 0
                &&& active_values(genome)[k] == clamped(genome[active_indices(genome)[k] as int])
            },
        forall|k: int, l: int|
            0 <= k < l < active_indices(genome).len() ==> active_indices(genome)[k]
                < active_indices(genome)[l],
        forall|p: int|
            0 <= p < genome.len() && genome[p] != 0 ==> active_indices(genome).contains(p as usize),
    decreases genome.len(),
{
    if genome.len() > 0 {
        let shorter = genome.drop_last();
        lemma_active_indices(shorter);
        let found = active_indices(genome);
        let before = active_indices(shorter);
        assert forall|k: int| 0 <= k < found.len() implies {
            &&& (#[trigger] found[k]) < genome.len()
            &&& genome[found[k] as int] != 0
            &&& active_values(genome)[k] == clamped(genome[found[k] as int])
        } by {
            if k < before.len() {
                assert(found[k] == before[k]);
                assert(shorter[before[k] as int] == genome[before[k] as int]);
                assert(active_values(genome)[k] == active_values(shorter)[k]);
            }
        }
        assert forall|k: int, l: int| 0 <= k < l < found.len() implies found[k] < found[l] by {
            assert(found[k] == before[k]);
            if l < before.len() {
                assert(found[l] == before[l]);
            }
        }
        assert forall|p: int| 0 <= p < genome.len() && genome[p] != 0 implies found.contains(
            p as usize,
        ) by {
            if p < genome.len() - 1 {
                assert(shorter[p] == genome[p]);
                assert(before.contains(p as usize));
                let k = choose|k: int| 0 <= k < before.len() && before[k] == p as usize;
                assert(found[k] == p as usize);
            } else {
                assert(found[found.len() - 1] == p as usize);
            }
        }
    }
}

/// No active value is below the minimum.
pub proof fn lemma_active_values_floor(genome: Seq<i32>)
    ensures
        forall|k: int| 0 <= k < active_values(genome).len() ==> #[trigger] active_values(genome)[k]
            >= MIN_NODES,
    decreases genome.len(),
{
    if genome.len() > 0 {
        let shorter = genome.drop_last();
        lemma_active_values_floor(shorter);
        assert forall|k: int| 0 <= k < active_values(genome).len() implies #[trigger] active_values(
            genome,
        )[k] >= MIN_NODES by {
            if k < active_values(shorter).len() {
                assert(active_values(genome)[k] == active_values(shorter)[k]);
            }
        }
    }
}

/// Every term of the count lies within `2^62 + 2^31` of zero, so the count
/// of `n` layers lies within `n * 2^63`.
pub proof fn lemma_calculations_bound(layers: Seq<i32>)
    ensures
        -(layers.len() * 0x8000_0000_0000_0000) <= spec_calculations(layers) <= layers.len()
            * 0x8000_0000_0000_0000,
    decreases layers.len(),
{
    if layers.len() >= 2 {
        lemma_calculations_bound(layers.drop_last());
        let a = layers.last() as int;
        let b = layers[layers.len() - 2] as int;
        assert(-0x4000_0000_0000_0000 <= a * b <= 0x4000_0000_0000_0000) by (nonlinear_arith)
            requires
                -0x8000_0000 <= a <= 0x8000_0000,
                -0x8000_0000 <= b <= 0x8000_0000,
        ;
    }
}

/// The count does not fall when one layer grows and the others stay, as long
/// as the layer before it, plus one, and the layer after it do not add up to
/// less than zero.
pub proof fn lemma_calculations_monotone(layers: Seq<i32>, k: int, larger: i32)
    requires
        0 <= k < layers.len(),
        layers[k] <= larger,
        (if k > 0 {
            layers[k - 1] + 1
        } else {
            0
        }) + (if k + 1 < layers.len() {
            layers[k + 1] as int
        } else {
            0
        }) >= 0,
    ensures
        spec_calculations(layers) <= spec_calculations(layers.update(k, larger)),
{
    let below: int = if k > 0 {
        layers[k - 1] + 1
    } else {
        0
    };
    let above: int = if k + 1 < layers.len() {
        layers[k + 1] as int
    } else {
        0
    };
    lemma_calculations_change(layers, k, larger);
    assert((larger - layers[k]) * (below + above) >= 0) by (nonlinear_arith)
        requires
            larger - layers[k] >= 0,
            below + above >= 0,
    ;
}

/// What the count changes by when layer `k` changes to `value`: the change of
/// the layer, times the sum of the layer before it plus one and the layer
/// after it.
pub proof fn lemma_calculations_change(layers: Seq<i32>, k: int, value: i32)
    requires
        0 <= k < layers.len(),
    ensures
        spec_calculations(layers.update(k, value)) - spec_calculations(layers) == (value
            - layers[k]) * ((if k > 0 {
            layers[k - 1] + 1
        } else {
            0
        }) + (if k + 1 < layers.len() {
            layers[k + 1] as int
        } else {
            0
        })),
    decreases layers.len(),
{
    let changed = layers.update(k, value);
    let n = layers.len() as int;
    if n >= 2 {
        if k == n - 1 {
            assert(changed.drop_last() =~= layers.drop_last());
            let d = value - layers[k];
            let b = layers[n - 2] as int;
            assert(value * b + value - (layers[k] * b + layers[k]) == d * (b + 1))
                by (nonlinear_arith)
                requires
                    d == value - layers[k],
            ;
        } else {
            assert(changed.drop_last() =~= layers.drop_last().update(k, value));
            lemma_calculations_change(layers.drop_last(), k, value);
            if k == n - 2 {
                let d = value - layers[k];
                let last = layers[n - 1] as int;
                let below: int = if k > 0 {
                    layers[k - 1] + 1
                } else {
                    0
                };
                assert(last * value - last * layers[k] + d * below == d * (below + last))
                    by (nonlinear_arith)
                    requires
                        d == value - layers[k],
                ;
            }
        }
    } else {
        assert((value - layers[k]) * 0 == 0);
    }
}

/// What the network answered for one test sample, and what was asked for.
#[derive(Clone, Copy, Debug, PartialEq, Eq, Structural)]
pub struct Verdict {
    pub predicted: usize,
    pub correct: usize,
}

/// The position of the largest of the first `upto` activations, the first
/// of them where several are largest.
pub open spec fn predicted_class<T: Scalar>(output: Seq<T>, upto: nat) -> int
    decreases upto,
{
    if upto == 0 {
        0
    } else {
        let best = predicted_class(output, (upto - 1) as nat);
        if output[best].spec_lt(output[upto - 1]) {
            upto - 1
        } else {
            best
        }
    }
}

/// The last position among the first `upto` elements of the target that
/// holds a one; zero where none does.
pub open spec fn true_class<T: Scalar>(target: Seq<T>, upto: nat) -> int
    decreases upto,
{
    if upto == 0 {
        0
    } else if same_rank(target[upto - 1], one::<T>()) {
        upto - 1
    } else {
        true_class(target, (upto - 1) as nat)
    }
}

/// The verdict on one sample.
pub open spec fn spec_judge<T: Scalar>(output: Seq<T>, target: Seq<T>) -> Verdict {
    Verdict {
        predicted: predicted_class(output, output.len()) as usize,
        correct: true_class(target, target.len()) as usize,
    }
}

/// The verdicts of a network on the samples of a test set.
pub open spec fn spec_verdicts<T: Scalar>(net: Net<T>, inputs: Seq<Vec<T>>, targets: Seq<Vec<T>>) -> Seq<Verdict> {
    Seq::new(inputs.len(), |i: int| spec_judge(prediction(net, inputs[i]@), targets[i]@))
}

/// How many of the first `upto` verdicts are wrong answers for a sample of
/// the class `class`.
pub open spec fn misses(verdicts: Seq<Verdict>, class: int, upto: nat) -> nat
    decreases upto,
{
    if upto == 0 {
        0
    } else {
        let v = verdicts[upto - 1];
        misses(verdicts, class, (upto - 1) as nat) + if v.predicted != v.correct && v.correct
            == class {
            1nat
        } else {
            0nat
        }
    }
}

/// The wrong answers for each of `classes` classes.
pub open spec fn spec_error_counts(verdicts: Seq<Verdict>, classes: nat) -> Seq<usize> {
    Seq::new(classes, |c: int| misses(verdicts, c, verdicts.len()) as usize)
}

/// The sum of the first `upto` counts.
pub open spec fn spec_total(counts: Seq<usize>, upto: nat) -> int
    decreases upto,
{
    if upto == 0 {
        0
    } else {
        spec_total(counts, (upto - 1) as nat) + counts[upto - 1]
    }
}

/// The position of the largest of the first `upto` counts, the last of them
/// where several are largest.
pub open spec fn spec_worst(counts: Seq<usize>, upto: nat) -> int
    decreases upto,
{
    if upto == 0 {
        0
    } else {
        let best = spec_worst(counts, (upto - 1) as nat);
        if counts[upto - 1] >= counts[best] {
            upto - 1
        } else {
            best
        }
    }
}

/// A count of wrong answers as a percentage of `samples`.
pub open spec fn spec_percentage<T: Scalar>(count: usize, samples: usize) -> T {
    T::spec_from_ratio(count as i64, samples as i64).spec_mul(whole::<T>(100))
}

/// No class has more wrong answers than there are verdicts.
pub proof fn lemma_misses_bound(verdicts: Seq<Verdict>, class: int, upto: nat)
    ensures
        misses(verdicts, class, upto) <= upto,
    decreases upto,
{
    if upto > 0 {
        lemma_misses_bound(verdicts, class, (upto - 1) as nat);
    }
}

/// The wrong answers of all classes add up to no more than there are
/// verdicts.
pub proof fn lemma_total_bound(verdicts: Seq<Verdict>, classes: nat, upto: nat)
    requires
        verdicts.len() <= usize::MAX,
        upto <= classes,
    ensures
        0 <= spec_total(spec_error_counts(verdicts, classes), upto) <= verdicts.len(),
{
    lemma_total_counts(verdicts, classes, upto);
    lemma_missed_below_bound(verdicts, upto, verdicts.len());
}

/// How many of the first `upto` verdicts are wrong answers for a sample of a
/// class below `classes`.
pub open spec fn missed_below(verdicts: Seq<Verdict>, classes: nat, upto: nat) -> nat
    decreases upto,
{
    if upto == 0 {
        0
    } else {
        let v = verdicts[upto - 1];
        missed_below(verdicts, classes, (upto - 1) as nat) + if v.predicted != v.correct
            && v.correct < classes {
            1nat
        } else {
            0nat
        }
    }
}

proof fn lemma_missed_below_bound(verdicts: Seq<Verdict>, classes: nat, upto: nat)
    ensures
        missed_below(verdicts, classes, upto) <= upto,
    decreases upto,
{
    if upto > 0 {
        lemma_missed_below_bound(verdicts, classes, (upto - 1) as nat);
    }
}

proof fn lemma_missed_below_step(verdicts: Seq<Verdict>, classes: nat, upto: nat)
    requires
        classes > 0,
    ensures
        missed_below(verdicts, classes, upto) == missed_below(verdicts, (classes - 1) as nat, upto)
            + misses(verdicts, classes - 1, upto),
    decreases upto,
{
    if upto > 0 {
        lemma_missed_below_step(verdicts, classes, (upto - 1) as nat);
    }
}

proof fn lemma_total_counts(verdicts: Seq<Verdict>, classes: nat, upto: nat)
    requires
        upto <= classes,
        verdicts.len() <= usize::MAX,
    ensures
        spec_total(spec_error_counts(verdicts, classes), upto) == missed_below(
            verdicts,
            upto,
            verdicts.len(),
        ),
    decreases upto,
{
    if upto > 0 {
        lemma_total_counts(verdicts, classes, (upto - 1) as nat);
        lemma_missed_below_step(verdicts, upto, verdicts.len());
        lemma_misses_bound(verdicts, upto - 1, verdicts.len());
    } else {
        lemma_missed_below_zero(verdicts, verdicts.len());
    }
}

proof fn lemma_missed_below_zero(verdicts: Seq<Verdict>, upto: nat)
    ensures
        missed_below(verdicts, 0, upto) == 0,
    decreases upto,
{
    if upto > 0 {
        lemma_missed_below_zero(verdicts, (upto - 1) as nat);
    }
}

/// The position of the largest activation, the first of them where several
/// are largest; zero for no activations.
pub fn predicted_of<T: Scalar>(output: &Vec<T>) -> (r: usize)
    ensures
        r == predicted_class(output@, output@.len()),
        output@.len() > 0 ==> r < output@.len(),
{
    let mut best: usize = 0;
    let mut j: usize = 0;
    while j < output.len()
        invariant
            j <= output@.len(),
            best == predicted_class(output@, j as nat),
            j > 0 ==> best < j,
            j == 0 ==> best == 0,
        decreases output@.len() - j,
    {
        if output[best].less_than(output[j]) {
            best = j;
        }
        j = j + 1;
    }
    best
}

/// The last position of the target that holds a one; zero where none does.
pub fn correct_of<T: Scalar>(target: &Vec<T>) -> (r: usize)
    ensures
        r == true_class(target@, target@.len()),
        target@.len() > 0 ==> r < target@.len(),
{
    let one_value = T::from_ratio(1, 1);
    let mut found: usize = 0;
    let mut j: usize = 0;
    while j < target.len()
        invariant
            j <= target@.len(),
            one_value == one::<T>(),
            found == true_class(target@, j as nat),
            j > 0 ==> found < j,
            j == 0 ==> found == 0,
        decreases target@.len() - j,
    {
        if equal_rank(target[j], one_value) {
            found = j;
        }
        j = j + 1;
    }
    found
}

/// The verdict on one sample: the class that the network answered and the
/// class that the target names.
pub fn judge<T: Scalar>(output: &Vec<T>, target: &Vec<T>) -> (r: Verdict)
    ensures
        r == spec_judge(output@, target@),
{
    Verdict { predicted: predicted_of(output), correct: correct_of(target) }
}

/// Counts, for each of `classes` classes, the wrong answers for samples of
/// that class.
pub fn error_counts(verdicts: &Vec<Verdict>, classes: usize) -> (r: Vec<usize>)
    ensures
        r@ == spec_error_counts(verdicts@, classes as nat),
{
    let mut counts: Vec<usize> = Vec::new();
    let mut c: usize = 0;
    while c < classes
        invariant
            c <= classes,
            counts@.len() == c,
            forall|k: int| 0 <= k < c ==> #[trigger] counts@[k] == misses(verdicts@, k, 0),
        decreases classes - c,
    {
        counts.push(0);
        c = c + 1;
    }
    let mut i: usize = 0;
    while i < verdicts.len()
        invariant
            i <= verdicts@.len(),
            counts@.len() == classes,
            forall|k: int| 0 <= k < classes ==> #[trigger] counts@[k] == misses(verdicts@, k, i as nat),
        decreases verdicts@.len() - i,
    {
        let v = verdicts[i];
        if v.predicted != v.correct && v.correct < classes {
            proof {
                lemma_misses_bound(verdicts@, v.correct as int, i as nat);
            }
            let raised = counts[v.correct] + 1;
            counts.set(v.correct, raised);
        }
        i = i + 1;
    }
    proof {
        assert forall|k: int| 0 <= k < classes implies counts@[k] == spec_error_counts(
            verdicts@,
            classes as nat,
        )[k] by {
            lemma_misses_bound(verdicts@, k, verdicts@.len());
        }
        assert(counts@ =~= spec_error_counts(verdicts@, classes as nat));
    }
    counts
}

/// The position of the largest count, the last of them where several are
/// largest; zero for no counts.
pub fn worst_of(counts: &Vec<usize>) -> (r: usize)
    ensures
        r == spec_worst(counts@, counts@.len()),
        counts@.len() > 0 ==> r < counts@.len(),
{
    let mut best: usize = 0;
    let mut j: usize = 0;
    while j < counts.len()
        invariant
            j <= counts@.len(),
            best == spec_worst(counts@, j as nat),
            j > 0 ==> best < j,
            j == 0 ==> best == 0,
        decreases counts@.len() - j,
    {
        if counts[j] >= counts[best] {
            best = j;
        }
        j = j + 1;
    }
    best
}

/// The sum of the counts.
pub fn total_of(counts: &Vec<usize>) -> (r: usize)
    requires
        spec_total(counts@, counts@.len()) <= usize::MAX,
    ensures
        r == spec_total(counts@, counts@.len()),
{
    let mut total: usize = 0;
    let mut j: usize = 0;
    while j < counts.len()
        invariant
            j <= counts@.len(),
            total == spec_total(counts@, j as nat),
            spec_total(counts@, counts@.len()) <= usize::MAX,
        decreases counts@.len() - j,
    {
        proof {
            lemma_total_grows(counts@, (j + 1) as nat, counts@.len());
        }
        total = total + counts[j];
        j = j + 1;
    }
    total
}

/// A partial sum is no more than a longer one.
proof fn lemma_total_grows(counts: Seq<usize>, shorter: nat, longer: nat)
    requires
        shorter <= longer,
    ensures
        spec_total(counts, shorter) <= spec_total(counts, longer),
    decreases longer,
{
    if shorter < longer {
        lemma_total_grows(counts, shorter, (longer - 1) as nat);
    }
}

/// `count` of `samples`, in percent.
pub fn percentage<T: Scalar>(count: usize, samples: usize) -> (r: T)
    ensures
        r == spec_percentage::<T>(count, samples),
{
    T::from_ratio(count as i64, samples as i64).mul(T::from_ratio(100, 1))
}

/// Whether two vectors hold the same integers.
pub fn same_integers(a: &Vec<i32>, b: &Vec<i32>) -> (r: bool)
    ensures
        r == (a@ == b@),
{
    if a.len() != b.len() {
        return false;
    }
    let mut k: usize = 0;
    while k < a.len()
        invariant
            k <= a@.len(),
            a@.len() == b@.len(),
            forall|p: int| 0 <= p < k ==> a@[p] == b@[p],
        decreases a@.len() - k,
    {
        if a[k] != b[k] {
            return false;
        }
        k = k + 1;
    }
    assert(a@ =~= b@);
    true
}

/// Whether two vectors hold the same positions.
pub fn same_positions(a: &Vec<usize>, b: &Vec<usize>) -> (r: bool)
    ensures
        r == (a@ == b@),
{
    if a.len() != b.len() {
        return false;
    }
    let mut k: usize = 0;
    while k < a.len()
        invariant
            k <= a@.len(),
            a@.len() == b@.len(),
            forall|p: int| 0 <= p < k ==> a@[p] == b@[p],
        decreases a@.len() - k,
    {
        if a[k] != b[k] {
            return false;
        }
        k = k + 1;
    }
    assert(a@ =~= b@);
    true
}

/// Whether the layers can be built.
pub fn check_buildable(layers: &Vec<i32>) -> (r: bool)
    ensures
        r == buildable(layers@),
{
    let mut k: usize = 0;
    while k < layers.len()
        invariant
            k <= layers@.len(),
            forall|p: int| 0 <= p < k ==> #[trigger] layers@[p] >= 0,
            forall|p: int| 0 <= p < k - 1 ==> (#[trigger] layers@[p + 1]) * layers@[p] <= usize::MAX,
        decreases layers@.len() - k,
    {
        if layers[k] < 0 {
            return false;
        }
        if k > 0 {
            let a = layers[k] as u64;
            let b = layers[k - 1] as u64;
            assert(a * b <= 0x4000_0000_0000_0000) by (nonlinear_arith)
                requires
                    0 <= a <= 0x8000_0000,
                    0 <= b <= 0x8000_0000,
            ;
            if a * b > usize::MAX as u64 {
                assert(layers@[(k - 1) + 1] * layers@[k - 1] > usize::MAX);
                return false;
            }
        }
        k = k + 1;
    }
    true
}

/// A candidate network of the search.
#[derive(Debug, Clone)]
pub struct Contestant<T> {
    /// The number of genes.
    pub layer_count: usize,
    /// The genome: one gene for each possible hidden layer, zero for none.
    pub layer_sizes: Vec<i32>,
    /// The layers of the network: input, active hidden layers, output.
    pub layers: Vec<i32>,
    /// The positions of the genes that are not zero.
    pub lookup_table: Vec<usize>,
    pub neural_network: NeuralNetwork<T>,
    /// The number of weights and biases of the network.
    pub calculations: i128,
    pub epochs: i32,
    pub learning_rate: T,
    pub accuracy: T,
    /// The wrong answers on the test set, in percent of its samples.
    pub average_error: T,
    /// The wrong answers of the class with the most of them, in percent of
    /// the samples of the test set.
    pub max_error: T,
    /// The class with the most wrong answers.
    pub max_error_index: usize,
    /// `average_error + max_error`: the lower, the better.
    pub cost: T,
    pub scaled_cost: T,
    pub fitness: T,
    pub seed: i32,
    pub is_training: bool,
}

/// The layers can be built: no size is negative, and a weight matrix between
/// two adjacent layers has no more elements than a `usize` can count.
pub open spec fn buildable(layers: Seq<i32>) -> bool {
    &&& forall|k: int| 0 <= k < layers.len() ==> #[trigger] layers[k] >= 0
    &&& forall|k: int| 0 <= k < layers.len() - 1 ==> (#[trigger] layers[k + 1]) * layers[k] <= usize::MAX
}

/// The layer sizes as the network counts them.
pub open spec fn as_sizes(layers: Seq<i32>) -> Seq<usize> {
    Seq::new(layers.len(), |k: int| layers[k] as usize)
}

impl<T: Scalar> Contestant<T> {
    /// The layers, the table of active genes, the count of weights and the
    /// network are those that the genome encodes.
    pub open spec fn wf(&self) -> bool {
        &&& self.layers@.len() >= 2
        &&& self.layers@ == with_io(
            active_values(self.layer_sizes@),
            self.layers@[0],
            self.layers@.last(),
        )
        &&& buildable(self.layers@)
        &&& self.lookup_table@ == active_indices(self.layer_sizes@)
        &&& self.layer_count == self.layer_sizes@.len()
        &&& self.calculations == spec_calculations(self.layers@)
        &&& self.neural_network.wf()
        &&& self.neural_network.layer_sizes@ == as_sizes(self.layers@)
    }

    /// Whether the layers, the table of active genes, the count of weights
    /// and the network are those that the genome encodes.
    pub fn is_wf(&self) -> (r: bool)
        ensures
            r == self.wf(),
    {
        let count = self.layers.len();
        if count < 2 {
            return false;
        }
        let encoded = Self::from_layer_sizes(self.layer_sizes.clone());
        let expected = Self::add_io(encoded.1, self.layers[0], self.layers[count - 1]);
        if !same_integers(&self.layers, &expected) || !check_buildable(&self.layers)
            || !same_positions(&self.lookup_table, &encoded.0) || self.layer_count
            != self.layer_sizes.len() || self.calculations != Self::calculations_calculator(
            self.layers.clone(),
        ) || !self.neural_network.is_wf() || self.neural_network.layer_sizes.len() != count {
            return false;
        }
        let mut k: usize = 0;
        while k < count
            invariant
                k <= count,
                count == self.layers@.len(),
                count == self.neural_network.layer_sizes@.len(),
                buildable(self.layers@),
                forall|p: int|
                    0 <= p < k ==> #[trigger] self.neural_network.layer_sizes@[p]
                        == self.layers@[p] as usize,
            decreases count - k,
        {
            if self.neural_network.layer_sizes[k] != self.layers[k] as usize {
                assert(as_sizes(self.layers@)[k as int] == self.layers@[k as int] as usize);
                return false;
            }
            k = k + 1;
        }
        assert(self.neural_network.layer_sizes@ =~= as_sizes(self.layers@));
        true
    }

    /// Both candidates have the same genome, layers, epochs, learning rate
    /// and seed, and the same scaled cost and fitness.
    pub open spec fn same_candidate(&self, other: Contestant<T>) -> bool {
        &&& self.layer_count == other.layer_count
        &&& self.layer_sizes == other.layer_sizes
        &&& self.layers == other.layers
        &&& self.lookup_table == other.lookup_table
        &&& self.calculations == other.calculations
        &&& self.epochs == other.epochs
        &&& self.learning_rate == other.learning_rate
        &&& self.seed == other.seed
        &&& self.scaled_cost == other.scaled_cost
        &&& self.fitness == other.fitness
        &&& self.is_training == other.is_training
    }

    /// The samples of `data` fit the first and the last layer of the
    /// network.
    pub open spec fn takes(&self, data: &DataSet<T>) -> bool {
        data.fits(self.input_size() as nat, self.output_size() as nat)
    }

    /// The candidate is as it is built: the network freshly seeded, all
    /// scores zero.
    pub open spec fn unscored(&self) -> bool {
        &&& self.neural_network@ == initial(as_sizes(self.layers@), self.learning_rate, self.seed)
        &&& self.accuracy == zero::<T>()
        &&& self.average_error == zero::<T>()
        &&& self.max_error == zero::<T>()
        &&& self.max_error_index == 0
        &&& self.cost == zero::<T>()
        &&& self.scaled_cost == zero::<T>()
        &&& self.fitness == zero::<T>()
        &&& !self.is_training
    }

    /// The number of inputs of the network.
    pub open spec fn input_size(&self) -> i32 {
        self.layers@[0]
    }

    /// The number of outputs of the network.
    pub open spec fn output_size(&self) -> i32 {
        self.layers@.last()
    }

    /// The scores are those of `net` on the given test samples.
    pub open spec fn scored_by(&self, net: Net<T>, inputs: Seq<Vec<T>>, targets: Seq<Vec<T>>) -> bool {
        let counts = spec_error_counts(spec_verdicts(net, inputs, targets), self.output_size() as nat);
        let worst = spec_worst(counts, counts.len());
        let most: usize = if counts.len() == 0 {
            0
        } else {
            counts[worst]
        };
        &&& self.average_error == spec_percentage::<T>(
            spec_total(counts, counts.len()) as usize,
            inputs.len() as usize,
        )
        &&& self.max_error == spec_percentage::<T>(most, inputs.len() as usize)
        &&& self.max_error_index == worst
        &&& self.cost == self.average_error.spec_add(self.max_error)
    }

    /// The active genes of a genome: their positions, and the layer sizes that
    /// they stand for, each at least [`MIN_NODES`], both in genome order.
    pub fn from_layer_sizes(layer_sizes: Vec<i32>) -> (r: (Vec<usize>, Vec<i32>))
        ensures
            r.0@ == active_indices(layer_sizes@),
            r.1@ == active_values(layer_sizes@),
            forall|k: int| 0 <= k < r.1@.len() ==> #[trigger] r.1@[k] >= MIN_NODES,
    {
        let mut layers: Vec<i32> = Vec::new();
        let mut lookup_table: Vec<usize> = Vec::new();
        let mut i: usize = 0;
        while i < layer_sizes.len()
            invariant
                i <= layer_sizes@.len(),
                lookup_table@ == active_indices(layer_sizes@.take(i as int)),
                layers@ == active_values(layer_sizes@.take(i as int)),
            decreases layer_sizes@.len() - i,
        {
            assert(layer_sizes@.take(i + 1).drop_last() =~= layer_sizes@.take(i as int));
            let gene = layer_sizes[i];
            if gene != 0 {
                if gene < MIN_NODES {
                    layers.push(MIN_NODES);
                } else {
                    layers.push(gene);
                }
                lookup_table.push(i);
            }
            i = i + 1;
        }
        proof {
            assert(layer_sizes@.take(layer_sizes@.len() as int) =~= layer_sizes@);
            lemma_active_values_floor(layer_sizes@);
        }
        (lookup_table, layers)
    }

    /// The layer sequence with the input size in front and the output size at
    /// the end.
    pub fn add_io(layers: Vec<i32>, input_size: i32, output_size: i32) -> (r: Vec<i32>)
        ensures
            r@ == with_io(layers@, input_size, output_size),
    {
        let mut new_layers: Vec<i32> = Vec::new();
        new_layers.push(input_size);
        let mut i: usize = 0;
        while i < layers.len()
            invariant
                i <= layers@.len(),
                new_layers@ == seq![input_size] + layers@.take(i as int),
            decreases layers@.len() - i,
        {
            new_layers.push(layers[i]);
            assert(layers@.take(i + 1) =~= layers@.take(i as int).push(layers@[i as int]));
            assert(new_layers@ =~= seq![input_size] + layers@.take(i + 1));
            i = i + 1;
        }
        assert(layers@.take(layers@.len() as int) =~= layers@);
        new_layers.push(output_size);
        assert(new_layers@ =~= with_io(layers@, input_size, output_size));
        new_layers
    }

    /// The number of weights and biases of a network with the given layers.
    pub fn calculations_calculator(layer_sizes: Vec<i32>) -> (r: i128)
        ensures
            r == spec_calculations(layer_sizes@),
    {
        let mut calculations: i128 = 0;
        let mut i: usize = 1;
        while i < layer_sizes.len()
            invariant
                1 <= i,
                i <= layer_sizes@.len() || layer_sizes@.len() == 0,
                layer_sizes@.len() >= 1 ==> calculations == spec_calculations(layer_sizes@.take(i as int)),
                layer_sizes@.len() == 0 ==> calculations == 0,
            decreases layer_sizes@.len() - i,
        {
            proof {
                let longer = layer_sizes@.take(i + 1);
                assert(longer.drop_last() =~= layer_sizes@.take(i as int));
                lemma_calculations_bound(longer);
                lemma_calculations_bound(layer_sizes@.take(i as int));
                let a = layer_sizes@[i as int] as int;
                let b = layer_sizes@[i - 1] as int;
                assert(-0x4000_0000_0000_0000 <= a * b <= 0x4000_0000_0000_0000) by (nonlinear_arith)
                    requires
                        -0x8000_0000 <= a <= 0x8000_0000,
                        -0x8000_0000 <= b <= 0x8000_0000,
                ;
            }
            let size = layer_sizes[i] as i128;
            let before = layer_sizes[i - 1] as i128;
            calculations = calculations + size * before + size;
            i = i + 1;
        }
        proof {
            if layer_sizes@.len() >= 1 {
                assert(layer_sizes@.take(layer_sizes@.len() as int) =~= layer_sizes@);
            }
        }
        calculations
    }

    /// Runs the network on every sample of `test` and returns the verdicts.
    fn verdicts(&self, test: &DataSet<T>) -> (r: Vec<Verdict>)
        requires
            self.wf(),
            test.fits(self.input_size() as nat, self.output_size() as nat),
        ensures
            r@ == spec_verdicts(self.neural_network@, test.inputs@, test.targets@),
    {
        let mut verdicts: Vec<Verdict> = Vec::new();
        let mut i: usize = 0;
        while i < test.inputs.len()
            invariant
                self.wf(),
                test.fits(self.input_size() as nat, self.output_size() as nat),
                i <= test.inputs@.len(),
                verdicts@.len() == i,
                forall|k: int|
                    0 <= k < i ==> #[trigger] verdicts@[k] == spec_judge(
                        prediction(self.neural_network@, test.inputs@[k]@),
                        test.targets@[k]@,
                    ),
            decreases test.inputs@.len() - i,
        {
            assert(test.inputs@[i as int]@.len() == self.input_size() as nat);
            let output = match self.neural_network.predict_sample(&test.inputs[i]) {
                Ok(output) => output,
                Err(_) => vstd::pervasive::unreached(),
            };
            verdicts.push(judge(&output, &test.targets[i]));
            i = i + 1;
        }
        assert(verdicts@ =~= spec_verdicts(self.neural_network@, test.inputs@, test.targets@));
        verdicts
    }

    /// Scores the network on the test set: counts, class by class, the
    /// samples for which the largest output is not at the position where the
    /// target holds a one, and sets the error percentages and the cost from
    /// the counts. Returns `DimensionMismatch`, and changes nothing, where the
    /// test samples do not fit the network.
    pub fn evaluate(&mut self, test: &DataSet<T>) -> (r: Result<(), Error>)
        requires
            old(self).wf(),
        ensures
            final(self).wf(),
            final(self).same_candidate(*old(self)),
            final(self).neural_network == old(self).neural_network,
            test.fits(old(self).input_size() as nat, old(self).output_size() as nat) ==> r is Ok
                && final(self).scored_by(old(self).neural_network@, test.inputs@, test.targets@),
            !test.fits(old(self).input_size() as nat, old(self).output_size() as nat) ==> r
                == Err::<(), Error>(Error::DimensionMismatch) && *final(self) == *old(self),
    {
        let depth = self.neural_network.weights.len();
        let inputs = self.neural_network.layer_sizes[0];
        let classes = self.neural_network.layer_sizes[depth];
        assert(inputs == self.input_size() as usize);
        assert(classes == self.output_size() as usize);
        if !test.conforms(inputs, classes) {
            return Err(Error::DimensionMismatch);
        }
        let samples = test.inputs.len();
        let verdicts = self.verdicts(test);
        let counts = error_counts(&verdicts, classes);
        proof {
            assert(verdicts@.len() == samples);
            lemma_total_bound(verdicts@, classes as nat, classes as nat);
        }
        let total = total_of(&counts);
        let worst = worst_of(&counts);
        let most: usize = if counts.len() == 0 {
            0
        } else {
            counts[worst]
        };
        self.accuracy = T::from_ratio(0, 1);
        self.average_error = percentage(total, samples);
        self.max_error = percentage(most, samples);
        self.max_error_index = worst;
        self.cost = self.average_error.add(self.max_error);
        Ok(())
    }

    /// Trains the network for `epochs` passes over the training set, then
    /// scores it on the test set. Returns `DimensionMismatch`, and changes
    /// nothing, where the samples of either set do not fit the network.
    pub fn fit(&mut self, training: &DataSet<T>, test: &DataSet<T>) -> (r: Result<(), Error>)
        requires
            old(self).wf(),
        ensures
            final(self).wf(),
            final(self).same_candidate(*old(self)),
            old(self).takes(training) && old(self).takes(test) ==> r is Ok && fitted(
                old(self).neural_network@,
                final(self).neural_network@,
                training.inputs@,
                training.targets@,
                old(self).epochs,
            ) && final(self).scored_by(final(self).neural_network@, test.inputs@, test.targets@),
            !(old(self).takes(training) && old(self).takes(test)) ==> r == Err::<(), Error>(
                Error::DimensionMismatch,
            ) && *final(self) == *old(self),
    {
        let depth = self.neural_network.weights.len();
        let inputs = self.neural_network.layer_sizes[0];
        let classes = self.neural_network.layer_sizes[depth];
        assert(inputs == self.input_size() as usize);
        assert(classes == self.output_size() as usize);
        if !training.conforms(inputs, classes) || !test.conforms(inputs, classes) {
            return Err(Error::DimensionMismatch);
        }
        let _ = self.neural_network.fit(&training.inputs, &training.targets, self.epochs);
        let _ = self.evaluate(test);
        Ok(())
    }

    /// Builds the candidate that the genome `layer_sizes` encodes between
    /// `input_size` inputs and `output_size` outputs, with a freshly seeded
    /// network and all scores zero.
    pub fn new(
        epochs: i32,
        seed: i32,
        layer_sizes: Vec<i32>,
        learning_rate: T,
        input_size: i32,
        output_size: i32,
    ) -> (r: Contestant<T>)
        requires
            buildable(with_io(active_values(layer_sizes@), input_size, output_size)),
        ensures
            r.wf(),
            r.layer_sizes@ == layer_sizes@,
            r.input_size() == input_size,
            r.output_size() == output_size,
            r.epochs == epochs,
            r.seed == seed,
            r.learning_rate == learning_rate,
            r.unscored(),
    {
        let all_representations = Self::from_layer_sizes(layer_sizes.clone());
        let layers = Self::add_io(all_representations.1, input_size, output_size);
        let mut sizes: Vec<usize> = Vec::new();
        let mut k: usize = 0;
        while k < layers.len()
            invariant
                k <= layers@.len(),
                buildable(layers@),
                sizes@.len() == k,
                forall|p: int| 0 <= p < k ==> #[trigger] sizes@[p] == layers@[p] as usize,
            decreases layers@.len() - k,
        {
            sizes.push(layers[k] as usize);
            k = k + 1;
        }
        assert(sizes@ =~= as_sizes(layers@));
        assert forall|p: int| 0 <= p < sizes@.len() - 1 implies #[trigger] sizes@[p + 1] * sizes@[p]
            <= usize::MAX by {
            assert(layers@[p + 1] * layers@[p] <= usize::MAX);
        }
        let network = match NeuralNetwork::new(sizes, learning_rate, seed) {
            Ok(network) => network,
            Err(_) => vstd::pervasive::unreached(),
        };
        let zero_value = T::from_ratio(0, 1);
        Contestant {
            layer_count: layer_sizes.len(),
            calculations: Self::calculations_calculator(layers.clone()),
            layer_sizes,
            layers,
            lookup_table: all_representations.0,
            neural_network: network,
            epochs,
            learning_rate,
            accuracy: zero_value,
            average_error: zero_value,
            max_error: zero_value,
            max_error_index: 0,
            cost: zero_value,
            scaled_cost: zero_value,
            fitness: zero_value,
            seed,
            is_training: false,
        }
    }
}

} // verus!
