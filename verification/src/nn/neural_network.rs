//! A feed-forward network with logistic units, trained by back-propagation.
use vstd::prelude::*;
use crate::error::Error;
use crate::nn::data_set::{check_samples, samples_fit};
use crate::nn::matrix::{
    added, column, column_from, difference, flattened, hadamard, logistic, multiplied_by,
    multiplied_cells, product, product_of, scaled, seeded, slopes, squashed, subtracted, sum,
    transposed, Grid, Matrix,
};
use crate::random::shuffled_order;
use crate::scalar::Scalar;

verus! {

/// The mathematical content of a network: the layer sizes, one weight grid and
/// one bias grid for each pair of adjacent layers, and the learning rate.
pub struct Net<T> {
    pub sizes: Seq<usize>,
    pub weights: Seq<Grid<T>>,
    pub biases: Seq<Grid<T>>,
    pub rate: T,
}

impl<T> Net<T> {
    /// The number of layers after the input layer.
    pub open spec fn depth(self) -> nat {
        self.weights.len()
    }

    /// There are at least two layers; between layers `k` and `k + 1` stands
    /// a weight grid of `sizes[k + 1]` by `sizes[k]` and a bias column of
    /// `sizes[k + 1]`.
    pub open spec fn wf(self) -> bool {
        &&& self.sizes.len() >= 2
        &&& self.weights.len() == self.sizes.len() - 1
        &&& self.biases.len() == self.sizes.len() - 1
        &&& forall|k: int|
            0 <= k < self.weights.len() ==> {
                &&& (#[trigger] self.weights[k]).wf()
                &&& self.weights[k].rows == self.sizes[k + 1]
                &&& self.weights[k].cols == self.sizes[k]
            }
        &&& forall|k: int|
            0 <= k < self.biases.len() ==> {
                &&& (#[trigger] self.biases[k]).wf()
                &&& self.biases[k].rows == self.sizes[k + 1]
                &&& self.biases[k].cols == 1
            }
    }
}

/// The network as it is built: every weight and bias grid drawn with the
/// generator seeded by `seed`.
pub open spec fn initial<T: Scalar>(sizes: Seq<usize>, rate: T, seed: i32) -> Net<T> {
    Net {
        sizes,
        weights: Seq::new(
            (sizes.len() - 1) as nat,
            |k: int| seeded::<T>(sizes[k + 1] as nat, sizes[k] as nat, seed as u64),
        ),
        biases: Seq::new(
            (sizes.len() - 1) as nat,
            |k: int| seeded::<T>(sizes[k + 1] as nat, 1, seed as u64),
        ),
        rate,
    }
}

/// What one layer makes of the activation `x` before it: the logistic
/// function of `w * x + b`.
pub open spec fn layer_output<T: Scalar>(w: Grid<T>, b: Grid<T>, x: Grid<T>) -> Grid<T> {
    logistic(sum(product(w, x), b))
}

/// The activation of layer `layer`, where layer 0 holds the input.
pub open spec fn activation<T: Scalar>(net: Net<T>, input: Grid<T>, layer: nat) -> Grid<T>
    decreases layer,
{
    if layer == 0 {
        input
    } else {
        layer_output(
            net.weights[layer - 1],
            net.biases[layer - 1],
            activation(net, input, (layer - 1) as nat),
        )
    }
}

/// What the network answers to `input`: the activation of its last layer.
pub open spec fn prediction<T: Scalar>(net: Net<T>, input: Seq<T>) -> Seq<T> {
    flattened(activation(net, column(input), net.depth()))
}

/// The correction of a layer with activation `act` on which the error `err`
/// falls: the slope of the logistic function times the error, times the
/// learning rate.
pub open spec fn gradient<T: Scalar>(act: Grid<T>, err: Grid<T>, rate: T) -> Grid<T> {
    scaled(hadamard(slopes(act), err), rate)
}

/// Weights after a correction `step`, where `before` is the activation that
/// the weights were applied to.
pub open spec fn corrected<T: Scalar>(weights: Grid<T>, step: Grid<T>, before: Grid<T>) -> Grid<T> {
    sum(weights, product(step, transposed(before)))
}

/// The error that falls on layer `layer` in one training step. On the last
/// layer it is `target - output`; on a layer below, it is the error of the
/// layer above, sent back through the weights between the two as they are
/// after their own correction.
pub open spec fn layer_error<T: Scalar>(net: Net<T>, input: Grid<T>, target: Grid<T>, layer: nat) -> Grid<T>
    decreases net.depth() - layer,
{
    if layer >= net.depth() {
        difference(target, activation(net, input, net.depth()))
    } else {
        let above = layer_error(net, input, target, layer + 1);
        let step = gradient(activation(net, input, layer + 1), above, net.rate);
        product(
            transposed(corrected(net.weights[layer as int], step, activation(net, input, layer))),
            above,
        )
    }
}

/// The correction of layer `k + 1` in one training step.
pub open spec fn layer_gradient<T: Scalar>(net: Net<T>, input: Grid<T>, target: Grid<T>, k: nat) -> Grid<T> {
    gradient(activation(net, input, k + 1), layer_error(net, input, target, k + 1), net.rate)
}

/// The network after one training step on `input` and `target`.
pub open spec fn trained<T: Scalar>(net: Net<T>, input: Seq<T>, target: Seq<T>) -> Net<T> {
    Net {
        sizes: net.sizes,
        weights: Seq::new(
            net.depth(),
            |k: int|
                corrected(
                    net.weights[k],
                    layer_gradient(net, column(input), column(target), k as nat),
                    activation(net, column(input), k as nat),
                ),
        ),
        biases: Seq::new(
            net.depth(),
            |k: int| sum(net.biases[k], layer_gradient(net, column(input), column(target), k as nat)),
        ),
        rate: net.rate,
    }
}

/// The network after training steps on the samples that `order` lists, one
/// after another.
pub open spec fn trained_on<T: Scalar>(
    net: Net<T>,
    inputs: Seq<Vec<T>>,
    targets: Seq<Vec<T>>,
    order: Seq<usize>,
) -> Net<T>
    decreases order.len(),
{
    if order.len() == 0 {
        net
    } else {
        trained(
            trained_on(net, inputs, targets, order.drop_last()),
            inputs[order.last() as int]@,
            targets[order.last() as int]@,
        )
    }
}

/// `order` lists every index below `count` once.
pub open spec fn is_round(order: Seq<usize>, count: nat) -> bool {
    &&& order.len() == count
    &&& forall|k: int| 0 <= k < count ==> #[trigger] order[k] < count
    &&& forall|index: usize| index < count ==> order.to_multiset().count(index) == 1
}

/// The network after one pass over the samples for each of `rounds`, each
/// pass in the order that its round lists.
pub open spec fn trained_in_rounds<T: Scalar>(
    net: Net<T>,
    inputs: Seq<Vec<T>>,
    targets: Seq<Vec<T>>,
    rounds: Seq<Seq<usize>>,
) -> Net<T>
    decreases rounds.len(),
{
    if rounds.len() == 0 {
        net
    } else {
        trained_on(
            trained_in_rounds(net, inputs, targets, rounds.drop_last()),
            inputs,
            targets,
            rounds.last(),
        )
    }
}

/// `after` is what `before` can become by `epochs` passes over the samples,
/// each pass in some order that visits every sample once; without a pass,
/// `after` is `before`.
pub open spec fn fitted<T: Scalar>(
    before: Net<T>,
    after: Net<T>,
    inputs: Seq<Vec<T>>,
    targets: Seq<Vec<T>>,
    epochs: i32,
) -> bool {
    exists|rounds: Seq<Seq<usize>>|
        {
            &&& rounds.len() == (if epochs > 0 {
                epochs as int
            } else {
                0
            })
            &&& forall|e: int| 0 <= e < rounds.len() ==> is_round(#[trigger] rounds[e], inputs.len())
            &&& after == #[trigger] trained_in_rounds(before, inputs, targets, rounds)
        }
}

/// A feed-forward network: `layer_sizes[0]` inputs, then one layer of
/// logistic units for every further size.
#[derive(Debug, Clone)]
pub struct NeuralNetwork<T> {
    pub layer_sizes: Vec<usize>,
    pub weights: Vec<Matrix<T>>,
    pub biases: Vec<Matrix<T>>,
    pub learning_rate: T,
}

impl<T> View for NeuralNetwork<T> {
    type V = Net<T>;

    open spec fn view(&self) -> Net<T> {
        Net {
            sizes: self.layer_sizes@,
            weights: Seq::new(self.weights@.len(), |k: int| self.weights@[k]@),
            biases: Seq::new(self.biases@.len(), |k: int| self.biases@[k]@),
            rate: self.learning_rate,
        }
    }
}

impl<T: Scalar> NeuralNetwork<T> {
    /// The weights and biases have the shapes that the layer sizes ask for.
    pub open spec fn wf(&self) -> bool {
        self@.wf()
    }

    /// Whether the weights and biases have the shapes that the layer sizes
    /// ask for.
    pub fn is_wf(&self) -> (r: bool)
        ensures
            r == self.wf(),
    {
        let n = self.layer_sizes.len();
        if n < 2 || self.weights.len() != n - 1 || self.biases.len() != n - 1 {
            return false;
        }
        let mut k: usize = 0;
        while k < n - 1
            invariant
                n == self.layer_sizes@.len(),
                n >= 2,
                self.weights@.len() == n - 1,
                self.biases@.len() == n - 1,
                k <= n - 1,
                forall|p: int|
                    0 <= p < k ==> {
                        &&& (#[trigger] self@.weights[p]).wf()
                        &&& self@.weights[p].rows == self@.sizes[p + 1]
                        &&& self@.weights[p].cols == self@.sizes[p]
                    },
                forall|p: int|
                    0 <= p < k ==> {
                        &&& (#[trigger] self@.biases[p]).wf()
                        &&& self@.biases[p].rows == self@.sizes[p + 1]
                        &&& self@.biases[p].cols == 1
                    },
            decreases n - 1 - k,
        {
            assert(self@.weights[k as int] == self.weights@[k as int]@);
            assert(self@.biases[k as int] == self.biases@[k as int]@);
            let weight = &self.weights[k];
            let bias = &self.biases[k];
            if !weight.is_wf() || weight.rows != self.layer_sizes[k + 1] || weight.cols
                != self.layer_sizes[k] || !bias.is_wf() || bias.rows != self.layer_sizes[k + 1]
                || bias.cols != 1 {
                return false;
            }
            k = k + 1;
        }
        true
    }

    /// Builds the network with the given layer sizes, every weight and bias
    /// matrix seeded with `seed`, or returns `InvalidGenome` where there are
    /// fewer than two layers.
    pub fn new(layer_sizes: Vec<usize>, learning_rate: T, seed: i32) -> (r: Result<NeuralNetwork<T>, Error>)
        requires
            forall|k: int|
                0 <= k < layer_sizes@.len() - 1 ==> #[trigger] layer_sizes@[k + 1] * layer_sizes@[k]
                    <= usize::MAX,
        ensures
            layer_sizes@.len() < 2 ==> r == Err::<NeuralNetwork<T>, Error>(Error::InvalidGenome),
            layer_sizes@.len() >= 2 ==> r is Ok && r->Ok_0.wf() && r->Ok_0@ == initial(
                layer_sizes@,
                learning_rate,
                seed,
            ),
    {
        if layer_sizes.len() < 2 {
            return Err(Error::InvalidGenome);
        }
        let mut weights: Vec<Matrix<T>> = Vec::new();
        let mut biases: Vec<Matrix<T>> = Vec::new();
        let mut i: usize = 0;
        while i < layer_sizes.len() - 1
            invariant
                layer_sizes@.len() >= 2,
                i <= layer_sizes@.len() - 1,
                weights@.len() == i,
                biases@.len() == i,
                forall|k: int|
                    0 <= k < layer_sizes@.len() - 1 ==> #[trigger] layer_sizes@[k + 1] * layer_sizes@[k]
                        <= usize::MAX,
                forall|k: int|
                    0 <= k < i ==> (#[trigger] weights@[k]).wf() && weights@[k]@ == seeded::<T>(
                        layer_sizes@[k + 1] as nat,
                        layer_sizes@[k] as nat,
                        seed as u64,
                    ),
                forall|k: int|
                    0 <= k < i ==> (#[trigger] biases@[k]).wf() && biases@[k]@ == seeded::<T>(
                        layer_sizes@[k + 1] as nat,
                        1,
                        seed as u64,
                    ),
            decreases layer_sizes@.len() - 1 - i,
        {
            assert(layer_sizes@[i + 1] * layer_sizes@[i as int] <= usize::MAX);
            let weight = Matrix::new(layer_sizes[i + 1], layer_sizes[i], seed);
            let bias = Matrix::new(layer_sizes[i + 1], 1, seed);
            weights.push(weight);
            biases.push(bias);
            i = i + 1;
        }
        let network = NeuralNetwork { layer_sizes, weights, biases, learning_rate };
        proof {
            let net = initial(network.layer_sizes@, learning_rate, seed);
            assert(network@.weights =~= net.weights);
            assert(network@.biases =~= net.biases);
        }
        Ok(network)
    }

    /// The activations of all layers for `input`, the input itself first.
    fn forward(&self, input: &Vec<T>) -> (layers: Vec<Matrix<T>>)
        requires
            self.wf(),
            input@.len() == self.layer_sizes@[0],
        ensures
            layers@.len() == self@.depth() + 1,
            forall|k: int|
                0 <= k <= self@.depth() ==> {
                    &&& (#[trigger] layers@[k]).wf()
                    &&& layers@[k]@ == activation(self@, column(input@), k as nat)
                    &&& layers@[k].rows == self.layer_sizes@[k]
                    &&& layers@[k].cols == 1
                },
    {
        let mut layers: Vec<Matrix<T>> = Vec::new();
        layers.push(column_from(input));
        let mut i: usize = 0;
        while i < self.weights.len()
            invariant
                self.wf(),
                i <= self.weights@.len(),
                layers@.len() == i + 1,
                forall|k: int|
                    0 <= k <= i ==> {
                        &&& (#[trigger] layers@[k]).wf()
                        &&& layers@[k]@ == activation(self@, column(input@), k as nat)
                        &&& layers@[k].rows == self.layer_sizes@[k]
                        &&& layers@[k].cols == 1
                    },
            decreases self.weights@.len() - i,
        {
            assert(self@.weights[i as int] == self.weights@[i as int]@);
            assert(self@.biases[i as int] == self.biases@[i as int]@);
            let weighted = product_of(&self.weights[i], &layers[i]);
            let shifted = added(&weighted, &self.biases[i]);
            let layer = squashed(&shifted);
            layers.push(layer);
            i = i + 1;
        }
        layers
    }

    /// Runs `input` through the network and returns the activations of the
    /// last layer, or `DimensionMismatch` where `input` has not as many
    /// elements as the first layer.
    pub fn predict(&self, input: Vec<T>) -> (r: Result<Vec<T>, Error>)
        requires
            self.wf(),
        ensures
            input@.len() == self.layer_sizes@[0] ==> r is Ok && r->Ok_0@ == prediction(self@, input@),
            input@.len() != self.layer_sizes@[0] ==> r == Err::<Vec<T>, Error>(
                Error::DimensionMismatch,
            ),
    {
        self.predict_sample(&input)
    }

    /// The prediction of [`NeuralNetwork::predict`], on a borrowed vector.
    pub fn predict_sample(&self, input: &Vec<T>) -> (r: Result<Vec<T>, Error>)
        requires
            self.wf(),
        ensures
            input@.len() == self.layer_sizes@[0] ==> r is Ok && r->Ok_0@ == prediction(self@, input@),
            input@.len() != self.layer_sizes@[0] ==> r == Err::<Vec<T>, Error>(
                Error::DimensionMismatch,
            ),
    {
        if input.len() != self.layer_sizes[0] {
            return Err(Error::DimensionMismatch);
        }
        let layers = self.forward(input);
        Ok(layers[layers.len() - 1].to_array())
    }

    /// Corrects the weights and the bias below layer `i` for the error that
    /// falls on that layer.
    fn correct_error(&mut self, i: usize, layers: &Vec<Matrix<T>>, error: &Matrix<T>)
        requires
            old(self).wf(),
            1 <= i <= old(self)@.depth(),
            layers@.len() == old(self)@.depth() + 1,
            layers@[i as int].wf(),
            layers@[i as int].rows == old(self).layer_sizes@[i as int],
            layers@[i as int].cols == 1,
            layers@[i - 1].wf(),
            layers@[i - 1].rows == old(self).layer_sizes@[i - 1],
            layers@[i - 1].cols == 1,
            error.wf(),
            error.rows == old(self).layer_sizes@[i as int],
            error.cols == 1,
        ensures
            final(self).wf(),
            final(self)@.sizes == old(self)@.sizes,
            final(self)@.rate == old(self)@.rate,
            final(self)@.weights == old(self)@.weights.update(
                i - 1,
                corrected(
                    old(self)@.weights[i - 1],
                    gradient(layers@[i as int]@, error@, old(self)@.rate),
                    layers@[i - 1]@,
                ),
            ),
            final(self)@.biases == old(self)@.biases.update(
                i - 1,
                sum(old(self)@.biases[i - 1], gradient(layers@[i as int]@, error@, old(self)@.rate)),
            ),
    {
        let ghost before = self@;
        assert(self@.weights[i - 1] == self.weights@[i - 1]@);
        assert(self@.biases[i - 1] == self.biases@[i - 1]@);
        let slope = Matrix::dsigmoid(&layers[i]);
        let raw = multiplied_cells(&slope, error);
        let step = multiplied_by(&raw, self.learning_rate);
        let delta = product_of(&step, &Matrix::transpose(&layers[i - 1]));
        let weight = added(&self.weights[i - 1], &delta);
        let bias = added(&self.biases[i - 1], &step);
        self.weights.set(i - 1, weight);
        self.biases.set(i - 1, bias);
        proof {
            assert(self@.weights =~= before.weights.update(
                i - 1,
                corrected(
                    before.weights[i - 1],
                    gradient(layers@[i as int]@, error@, before.rate),
                    layers@[i - 1]@,
                ),
            ));
            assert(self@.biases =~= before.biases.update(
                i - 1,
                sum(before.biases[i - 1], gradient(layers@[i as int]@, error@, before.rate)),
            ));
        }
    }

    /// One training step: runs `input` forward, takes `target - output` as
    /// the error of the last layer, and corrects every layer from the last
    /// down to the first after the input. Returns what the network answered
    /// before the correction; or leaves the network as it is and returns
    /// `DimensionMismatch` where `input` or `target_v` has not the size of
    /// the first or the last layer.
    pub fn train(&mut self, input: Vec<T>, target_v: Vec<T>) -> (r: Result<Vec<T>, Error>)
        requires
            old(self).wf(),
        ensures
            final(self).wf(),
            final(self)@.sizes == old(self)@.sizes,
            final(self)@.rate == old(self)@.rate,
            sample_fits(old(self)@, input@, target_v@) ==> r is Ok && r->Ok_0@ == prediction(
                old(self)@,
                input@,
            ) && final(self)@ == trained(old(self)@, input@, target_v@),
            !sample_fits(old(self)@, input@, target_v@) ==> r == Err::<Vec<T>, Error>(
                Error::DimensionMismatch,
            ) && *final(self) == *old(self),
    {
        self.train_sample(&input, &target_v)
    }

    /// The training step of [`NeuralNetwork::train`], on borrowed vectors.
    pub fn train_sample(&mut self, input: &Vec<T>, target_v: &Vec<T>) -> (r: Result<Vec<T>, Error>)
        requires
            old(self).wf(),
        ensures
            final(self).wf(),
            final(self)@.sizes == old(self)@.sizes,
            final(self)@.rate == old(self)@.rate,
            sample_fits(old(self)@, input@, target_v@) ==> r is Ok && r->Ok_0@ == prediction(
                old(self)@,
                input@,
            ) && final(self)@ == trained(old(self)@, input@, target_v@),
            !sample_fits(old(self)@, input@, target_v@) ==> r == Err::<Vec<T>, Error>(
                Error::DimensionMismatch,
            ) && *final(self) == *old(self),
    {
        let depth = self.weights.len();
        if input.len() != self.layer_sizes[0] || target_v.len() != self.layer_sizes[depth] {
            return Err(Error::DimensionMismatch);
        }
        let ghost net = self@;
        let ghost x = column(input@);
        let ghost t = column(target_v@);
        let layers = self.forward(input);
        let target = column_from(target_v);
        let mut error = subtracted(&target, &layers[depth]);
        let mut i: usize = depth;
        while i > 0
            invariant
                net.wf(),
                net.depth() == depth,
                i <= depth,
                self.wf(),
                self@.sizes == net.sizes,
                self@.rate == net.rate,
                layers@.len() == depth + 1,
                forall|k: int|
                    0 <= k <= depth ==> {
                        &&& (#[trigger] layers@[k]).wf()
                        &&& layers@[k]@ == activation(net, x, k as nat)
                        &&& layers@[k].rows == net.sizes[k]
                        &&& layers@[k].cols == 1
                    },
                error.wf(),
                error.cols == 1,
                i > 0 ==> error.rows == net.sizes[i as int],
                i > 0 ==> error@ == layer_error(net, x, t, i as nat),
                forall|k: int| 0 <= k < i ==> self@.weights[k] == net.weights[k],
                forall|k: int| 0 <= k < i ==> self@.biases[k] == net.biases[k],
                forall|k: int|
                    i <= k < depth ==> self@.weights[k] == corrected(
                        net.weights[k],
                        layer_gradient(net, x, t, k as nat),
                        activation(net, x, k as nat),
                    ),
                forall|k: int|
                    i <= k < depth ==> self@.biases[k] == sum(
                        net.biases[k],
                        layer_gradient(net, x, t, k as nat),
                    ),
            decreases i,
        {
            self.correct_error(i, &layers, &error);
            i = i - 1;
            if i > 0 {
                assert(self@.weights[i as int] == self.weights@[i as int]@);
                let back = Matrix::transpose(&self.weights[i]);
                error = product_of(&back, &error);
            }
        }
        proof {
            let after = trained(net, input@, target_v@);
            assert(self@.weights =~= after.weights);
            assert(self@.biases =~= after.biases);
        }
        Ok(layers[depth].to_array())
    }

    /// Trains on the samples that `order` lists, one after another; or
    /// leaves the network as it is and returns `DimensionMismatch` where the
    /// samples do not fit the network or `order` names a sample that is not
    /// there.
    pub fn train_in_order(
        &mut self,
        inputs: &Vec<Vec<T>>,
        targets: &Vec<Vec<T>>,
        order: &Vec<usize>,
    ) -> (r: Result<(), Error>)
        requires
            old(self).wf(),
        ensures
            final(self).wf(),
            final(self)@.sizes == old(self)@.sizes,
            final(self)@.rate == old(self)@.rate,
            data_fits(old(self)@, inputs@, targets@) && in_range(order@, inputs@.len()) ==> r is Ok
                && final(self)@ == trained_on(old(self)@, inputs@, targets@, order@),
            !(data_fits(old(self)@, inputs@, targets@) && in_range(order@, inputs@.len())) ==> r
                == Err::<(), Error>(Error::DimensionMismatch) && *final(self) == *old(self),
    {
        let depth = self.weights.len();
        if !check_samples(inputs, targets, self.layer_sizes[0], self.layer_sizes[depth]) {
            return Err(Error::DimensionMismatch);
        }
        if !check_order(order, inputs.len()) {
            return Err(Error::DimensionMismatch);
        }
        let ghost net = self@;
        let mut k: usize = 0;
        while k < order.len()
            invariant
                net.wf(),
                k <= order@.len(),
                self.wf(),
                self@.sizes == net.sizes,
                self@.rate == net.rate,
                data_fits(net, inputs@, targets@),
                in_range(order@, inputs@.len()),
                self@ == trained_on(net, inputs@, targets@, order@.take(k as int)),
            decreases order@.len() - k,
        {
            let index = order[k];
            assert(order@.take(k + 1).drop_last() =~= order@.take(k as int));
            let _ = self.train_sample(&inputs[index], &targets[index]);
            k = k + 1;
        }
        assert(order@.take(order@.len() as int) =~= order@);
        Ok(())
    }

    /// Trains for `epochs` passes over the samples, each pass in a fresh
    /// random order; or leaves the network as it is and returns
    /// `DimensionMismatch` where a pass is asked for and the samples do not
    /// fit the network.
    pub fn fit(&mut self, inputs: &Vec<Vec<T>>, targets: &Vec<Vec<T>>, epochs: i32) -> (r: Result<(), Error>)
        requires
            old(self).wf(),
        ensures
            final(self).wf(),
            final(self)@.sizes == old(self)@.sizes,
            final(self)@.rate == old(self)@.rate,
            epochs <= 0 ==> r is Ok && *final(self) == *old(self),
            epochs <= 0 || data_fits(old(self)@, inputs@, targets@) ==> r is Ok && fitted(
                old(self)@,
                final(self)@,
                inputs@,
                targets@,
                epochs,
            ),
            epochs > 0 && !data_fits(old(self)@, inputs@, targets@) ==> r == Err::<(), Error>(
                Error::DimensionMismatch,
            ) && *final(self) == *old(self),
    {
        if epochs <= 0 {
            assert(self@ == trained_in_rounds(self@, inputs@, targets@, Seq::<Seq<usize>>::empty()));
            return Ok(());
        }
        let depth = self.weights.len();
        if !check_samples(inputs, targets, self.layer_sizes[0], self.layer_sizes[depth]) {
            return Err(Error::DimensionMismatch);
        }
        let ghost net = self@;
        let ghost mut rounds: Seq<Seq<usize>> = Seq::empty();
        let mut epoch: i32 = 0;
        while epoch < epochs
            invariant
                net.wf(),
                0 <= epoch <= epochs,
                self.wf(),
                self@.sizes == net.sizes,
                self@.rate == net.rate,
                data_fits(net, inputs@, targets@),
                rounds.len() == epoch,
                forall|e: int| 0 <= e < epoch ==> is_round(#[trigger] rounds[e], inputs@.len()),
                self@ == trained_in_rounds(net, inputs@, targets@, rounds),
            decreases epochs - epoch,
        {
            let order = shuffled_order(inputs.len());
            let ghost earlier = rounds;
            let _ = self.train_in_order(inputs, targets, &order);
            proof {
                rounds = rounds.push(order@);
                assert(rounds.drop_last() =~= earlier);
            }
            epoch = epoch + 1;
        }
        Ok(())
    }
}

/// `input` and `target` have the sizes of the first and the last layer.
pub open spec fn sample_fits<T>(net: Net<T>, input: Seq<T>, target: Seq<T>) -> bool {
    input.len() == net.sizes[0] && target.len() == net.sizes[net.sizes.len() - 1]
}

/// The samples fit the first and the last layer of the network.
pub open spec fn data_fits<T>(net: Net<T>, inputs: Seq<Vec<T>>, targets: Seq<Vec<T>>) -> bool {
    samples_fit(inputs, targets, net.sizes[0] as nat, net.sizes[net.sizes.len() - 1] as nat)
}

/// Every index that `order` lists is below `count`.
pub open spec fn in_range(order: Seq<usize>, count: nat) -> bool {
    forall|k: int| 0 <= k < order.len() ==> #[trigger] order[k] < count
}

/// Whether every index that `order` lists is below `count`.
pub fn check_order(order: &Vec<usize>, count: usize) -> (r: bool)
    ensures
        r == in_range(order@, count as nat),
{
    let mut k: usize = 0;
    while k < order.len()
        invariant
            k <= order@.len(),
            forall|p: int| 0 <= p < k ==> #[trigger] order@[p] < count,
        decreases order@.len() - k,
    {
        if order[k] >= count {
            return false;
        }
        k = k + 1;
    }
    true
}

} // verus!
