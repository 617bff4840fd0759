//! Training and test data: input vectors paired with target vectors.
use vstd::prelude::*;
use crate::scalar::{one, zero, Scalar};

verus! {

/// Samples for a network: `inputs[i]` is to give `targets[i]`.
#[derive(Debug, Clone)]
pub struct DataSet<T> {
    pub inputs: Vec<Vec<T>>,
    pub targets: Vec<Vec<T>>,
}

/// Every input has `input_size` elements, every target `output_size`, and
/// there are as many targets as inputs.
pub open spec fn samples_fit<T>(
    inputs: Seq<Vec<T>>,
    targets: Seq<Vec<T>>,
    input_size: nat,
    output_size: nat,
) -> bool {
    &&& inputs.len() == targets.len()
    &&& forall|k: int| 0 <= k < inputs.len() ==> (#[trigger] inputs[k])@.len() == input_size
    &&& forall|k: int| 0 <= k < targets.len() ==> (#[trigger] targets[k])@.len() == output_size
}

/// Whether the samples fit a network with `input_size` inputs and
/// `output_size` outputs.
pub fn check_samples<T>(
    inputs: &Vec<Vec<T>>,
    targets: &Vec<Vec<T>>,
    input_size: usize,
    output_size: usize,
) -> (r: bool)
    ensures
        r == samples_fit(inputs@, targets@, input_size as nat, output_size as nat),
{
    if inputs.len() != targets.len() {
        return false;
    }
    let mut k: usize = 0;
    while k < inputs.len()
        invariant
            k <= inputs.len(),
            inputs.len() == targets.len(),
            forall|p: int| 0 <= p < k ==> (#[trigger] inputs@[p])@.len() == input_size,
            forall|p: int| 0 <= p < k ==> (#[trigger] targets@[p])@.len() == output_size,
        decreases inputs.len() - k,
    {
        if inputs[k].len() != input_size || targets[k].len() != output_size {
            return false;
        }
        k = k + 1;
    }
    true
}

/// The target that names the class `hot` among `classes`: a one at its
/// position, zeros elsewhere.
pub open spec fn spec_one_hot<T: Scalar>(classes: nat, hot: int) -> Seq<T> {
    Seq::new(classes, |j: int| if j == hot { one::<T>() } else { zero::<T>() })
}

/// The target that names the class `hot` among `classes`.
pub fn one_hot<T: Scalar>(classes: usize, hot: usize) -> (r: Vec<T>)
    ensures
        r@ == spec_one_hot::<T>(classes as nat, hot as int),
{
    let mut target: Vec<T> = Vec::new();
    let mut j: usize = 0;
    while j < classes
        invariant
            j <= classes,
            target@.len() == j,
            forall|k: int| 0 <= k < j ==> #[trigger] target@[k] == spec_one_hot::<T>(classes as nat, hot as int)[k],
        decreases classes - j,
    {
        if j == hot {
            target.push(T::from_ratio(1, 1));
        } else {
            target.push(T::from_ratio(0, 1));
        }
        j = j + 1;
    }
    assert(target@ =~= spec_one_hot::<T>(classes as nat, hot as int));
    target
}

/// The targets of samples that come class by class, `per_class` of each:
/// first those of class 0, then those of class 1, and so on.
pub fn class_targets<T: Scalar>(classes: usize, per_class: usize) -> (r: Vec<Vec<T>>)
    ensures
        r@.len() == classes * per_class,
        forall|c: int, p: int|
            0 <= c < classes && 0 <= p < per_class ==> (#[trigger] r@[c * per_class + p])@
                == spec_one_hot::<T>(classes as nat, c),
{
    let mut targets: Vec<Vec<T>> = Vec::new();
    let mut c: usize = 0;
    while c < classes
        invariant
            c <= classes,
            targets@.len() == c * per_class,
            forall|d: int, p: int|
                0 <= d < c && 0 <= p < per_class ==> (#[trigger] targets@[d * per_class + p])@
                    == spec_one_hot::<T>(classes as nat, d),
        decreases classes - c,
    {
        let mut p: usize = 0;
        while p < per_class
            invariant
                c < classes,
                p <= per_class,
                targets@.len() == c * per_class + p,
                forall|d: int, q: int|
                    0 <= d < c && 0 <= q < per_class ==> (#[trigger] targets@[d * per_class + q])@
                        == spec_one_hot::<T>(classes as nat, d),
                forall|q: int|
                    0 <= q < p ==> (#[trigger] targets@[c * per_class + q])@ == spec_one_hot::<T>(
                        classes as nat,
                        c as int,
                    ),
            decreases per_class - p,
        {
            let ghost before = targets@;
            targets.push(one_hot(classes, c));
            proof {
                assert forall|d: int, q: int| 0 <= d < c && 0 <= q < per_class implies (
                #[trigger] targets@[d * per_class + q])@ == spec_one_hot::<T>(classes as nat, d) by {
                    lemma_block_position(d, q, c as int, per_class as int);
                    assert(targets@[d * per_class + q] == before[d * per_class + q]);
                }
            }
            p = p + 1;
        }
        proof {
            assert((c + 1) * per_class == c * per_class + per_class) by (nonlinear_arith);
            assert forall|d: int, q: int| 0 <= d < c + 1 && 0 <= q < per_class implies (
            #[trigger] targets@[d * per_class + q])@ == spec_one_hot::<T>(classes as nat, d) by {}
        }
        c = c + 1;
    }
    targets
}

/// A position in an earlier block lies before the start of a later block.
proof fn lemma_block_position(d: int, q: int, c: int, per_class: int)
    requires
        0 <= d < c,
        0 <= q < per_class,
    ensures
        0 <= d * per_class + q < c * per_class,
{
    assert(d * per_class + q < c * per_class) by (nonlinear_arith)
        requires
            0 <= d < c,
            0 <= q < per_class,
    ;
    assert(0 <= d * per_class) by (nonlinear_arith)
        requires
            0 <= d,
            0 <= per_class,
    ;
}

impl<T> DataSet<T> {
    /// The data set with the given inputs and targets.
    pub fn new(inputs: Vec<Vec<T>>, targets: Vec<Vec<T>>) -> (r: DataSet<T>)
        ensures
            r.inputs == inputs,
            r.targets == targets,
    {
        DataSet { inputs, targets }
    }

    /// The data set without samples.
    pub fn new_empty() -> (r: DataSet<T>)
        ensures
            r.inputs@.len() == 0,
            r.targets@.len() == 0,
    {
        DataSet { inputs: Vec::new(), targets: Vec::new() }
    }

    /// The samples fit a network with `input_size` inputs and `output_size`
    /// outputs.
    pub open spec fn fits(&self, input_size: nat, output_size: nat) -> bool {
        samples_fit(self.inputs@, self.targets@, input_size, output_size)
    }

    /// Whether the samples fit a network of the given sizes.
    pub fn conforms(&self, input_size: usize, output_size: usize) -> (r: bool)
        ensures
            r == self.fits(input_size as nat, output_size as nat),
    {
        check_samples(&self.inputs, &self.targets, input_size, output_size)
    }
}

} // verus!
