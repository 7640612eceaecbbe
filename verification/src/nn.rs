//! The network, its training options and its stopping rule.

use crate::activation::ActivationType;
use crate::layer::Layer;
use crate::matrix::{lemma_columns_in_range, Grid, Matrix};
use crate::optimizers::{AnyOptimizer, Optimizer, OptimizerType};
use crate::scalar::{at_most, ge, le};
use crate::utils::{arg_max, arg_max_in};
use vstd::prelude::*;

verus! {

/// The pattern of `0.001`, the base learning rate unless another is set.
pub const DEFAULT_LEARNING_RATE: u32 = 0x3A83_126F;

/// The pattern of `0.75`, the factor by which a stale rate shrinks.
pub const DEFAULT_LEARNING_RATE_FACTOR: u32 = 0x3F40_0000;

/// The pattern of `0.0001`, the weight of the penalty on large weights.
pub const DEFAULT_WEIGHT_DECAY: u32 = 0x38D1_B717;

/// When a training run ends.
#[derive(Clone, Copy, Debug, PartialEq, Eq, Structural)]
pub enum StopCondition {
    /// The epoch's loss is at most this number.
    Loss(u32),
    /// The epoch counter has reached this count.
    Epoch(usize),
    /// At least this many nanoseconds have passed since the run began.
    Time(u128),
    /// The accuracy on the held-out set is at least this number.
    TestAccuracy(u32),
}

impl StopCondition {
    /// Whether the condition holds of what an epoch measured.
    pub open spec fn met(self, loss: u32, epoch: usize, time: u128, test_accuracy: u32) -> bool {
        match self {
            StopCondition::Loss(l) => at_most(loss, l),
            StopCondition::Time(d) => time >= d,
            StopCondition::Epoch(e) => epoch >= e,
            StopCondition::TestAccuracy(t) => at_most(t, test_accuracy),
        }
    }

    /// Tells whether the run ends with the epoch that measured these values.
    pub fn must_stop(&self, loss: u32, epoch: usize, time: u128, test_accuracy: u32) -> (r: bool)
        ensures
            r == self.met(loss, epoch, time, test_accuracy),
    {
        match self {
            StopCondition::Loss(l) => le(loss, *l),
            StopCondition::Time(d) => time >= *d,
            StopCondition::Epoch(e) => epoch >= *e,
            StopCondition::TestAccuracy(t) => ge(test_accuracy, *t),
        }
    }

    /// Tells whether the condition looks at the accuracy on the held-out set.
    pub fn needs_test(&self) -> (r: bool)
        ensures
            r == (*self is TestAccuracy),
    {
        match self {
            StopCondition::TestAccuracy(_) => true,
            _ => false,
        }
    }
}

/// The knobs of a training run. Numbers are bit patterns.
#[derive(Clone, Copy, Debug)]
pub struct NNOptions {
    /// Log every so many epochs, if at all.
    pub log_interval: Option<usize>,
    /// Log after every batch.
    pub log_batches: bool,
    /// Measure the accuracy on the held-out set after every epoch.
    pub test: bool,
    /// The number of columns in a batch.
    pub batch_size: usize,
    /// The base learning rate.
    pub learning_rate: u32,
    /// The decay rate of the learning rate; zero for no decay.
    pub decay_rate: u32,
    /// The rate is multiplied by this factor when the loss has not improved
    /// for `patience` epochs.
    pub learning_rate_factor: u32,
    /// After how many stale epochs the rate shrinks, if ever.
    pub patience: Option<usize>,
    /// Over how many epochs the rate ramps up to the base rate, if at all.
    pub warmup_time: Option<usize>,
    /// When the run ends.
    pub stop_condition: StopCondition,
    /// The weight of the penalty on large weights in the reported loss.
    pub weight_decay: u32,
}

impl NNOptions {
    /// The options that hold unless others are set.
    pub open spec fn standard() -> NNOptions {
        NNOptions {
            batch_size: 1,
            learning_rate: DEFAULT_LEARNING_RATE,
            decay_rate: 0,
            learning_rate_factor: DEFAULT_LEARNING_RATE_FACTOR,
            patience: None,
            log_interval: Some(1usize),
            log_batches: true,
            test: true,
            warmup_time: None,
            stop_condition: StopCondition::Epoch(200),
            weight_decay: DEFAULT_WEIGHT_DECAY,
        }
    }
}

impl Default for NNOptions {
    fn default() -> (r: NNOptions)
        ensures
            r == NNOptions::standard(),
    {
        NNOptions {
            batch_size: 1,
            learning_rate: DEFAULT_LEARNING_RATE,
            decay_rate: 0,
            learning_rate_factor: DEFAULT_LEARNING_RATE_FACTOR,
            patience: None,
            log_interval: Some(1),
            log_batches: true,
            test: true,
            warmup_time: None,
            stop_condition: StopCondition::Epoch(200),
            weight_decay: DEFAULT_WEIGHT_DECAY,
        }
    }
}

/// Whether each layer but the first takes what the layer before it gives.
pub open spec fn chained(layers: Seq<Layer>) -> bool {
    forall|i: int|
        0 < i < layers.len() ==> (#[trigger] layers[i]).num_inputs() == layers[i - 1].num_neurons()
}

/// The shape that comes out of the layers when a batch of shape `input` goes
/// in: each layer must take what reaches it, and gives one row per neuron
/// and as many columns as it got. No layers give the batch back.
pub open spec fn shape_after(layers: Seq<Layer>, input: (nat, nat)) -> Option<(nat, nat)>
    decreases layers.len(),
{
    if layers.len() == 0 {
        Some(input)
    } else {
        match shape_after(layers.drop_last(), input) {
            Some(s) => if s.0 == layers.last().num_inputs() {
                Some((layers.last().num_neurons(), s.1))
            } else {
                None
            },
            None => None,
        }
    }
}

/// Whether the largest entries of column `j` of `p` and of `y` stand in the
/// same row.
pub open spec fn column_agrees(p: Grid, y: Grid, j: int) -> bool {
    arg_max(p.column(j)) == arg_max(y.column(j))
}

/// Whether column `j` has a largest entry in both `p` and `y`.
pub open spec fn column_decided(p: Grid, y: Grid, j: int) -> bool {
    arg_max(p.column(j)) is Some && arg_max(y.column(j)) is Some
}

/// The number of columns among the first `k` in which `p` and `y` agree.
pub open spec fn agreeing(p: Grid, y: Grid, k: nat) -> nat
    decreases k,
{
    if k == 0 {
        0
    } else {
        agreeing(p, y, (k - 1) as nat) + if column_agrees(p, y, k - 1) {
            1nat
        } else {
            0nat
        }
    }
}

/// The number of columns that both `p` and `y` have.
pub open spec fn shared_columns(p: Grid, y: Grid) -> nat {
    if p.cols <= y.cols {
        p.cols
    } else {
        y.cols
    }
}

/// Counts the samples that were classified correctly: the columns in which
/// the largest entry of the prediction stands in the same row as the largest
/// entry of the label. Only the columns that both matrices have are looked
/// at. `None` comes back exactly when one of those columns has no largest
/// entry in one of the two.
pub fn correct_predictions(predicted: &Matrix, labels: &Matrix) -> (r: Option<usize>)
    ensures
        r is Some <==> forall|j: int|
            0 <= j < shared_columns(predicted@, labels@) ==> column_decided(
                predicted@,
                labels@,
                j,
            ),
        r matches Some(n) ==> n == agreeing(
            predicted@,
            labels@,
            shared_columns(predicted@, labels@),
        ),
{
    let p_shape: (usize, usize) = predicted.shape();
    let y_shape: (usize, usize) = labels.shape();
    let p: Vec<u32> = predicted.to_vec();
    let y: Vec<u32> = labels.to_vec();
    let shared: usize = if p_shape.1 <= y_shape.1 {
        p_shape.1
    } else {
        y_shape.1
    };
    let mut correct: usize = 0;
    let mut j: usize = 0;
    let mut p_start: usize = 0;
    let mut y_start: usize = 0;
    proof {
        assert(0 * p_shape.0 == 0) by (nonlinear_arith);
        assert(0 * y_shape.0 == 0) by (nonlinear_arith);
    }
    while j < shared
        invariant
            j <= shared,
            shared == shared_columns(predicted@, labels@),
            p@ == predicted@.cells,
            y@ == labels@.cells,
            predicted@.wf(),
            labels@.wf(),
            p_shape.0 == predicted@.rows,
            p_shape.1 == predicted@.cols,
            y_shape.0 == labels@.rows,
            y_shape.1 == labels@.cols,
            p_shape.0 * p_shape.1 <= usize::MAX,
            y_shape.0 * y_shape.1 <= usize::MAX,
            p_start == j * p_shape.0,
            y_start == j * y_shape.0,
            correct <= j,
            correct == agreeing(predicted@, labels@, j as nat),
            forall|k: int| 0 <= k < j ==> column_decided(predicted@, labels@, k),
        decreases shared - j,
    {
        proof {
            lemma_columns_in_range(p_shape.0 as int, p_shape.1 as int, j as int, j + 1);
            lemma_columns_in_range(y_shape.0 as int, y_shape.1 as int, j as int, j + 1);
            assert((j + 1) * p_shape.0 == j * p_shape.0 + p_shape.0) by (nonlinear_arith);
            assert((j + 1) * y_shape.0 == j * y_shape.0 + y_shape.0) by (nonlinear_arith);
        }
        let p_end: usize = p_start + p_shape.0;
        let y_end: usize = y_start + y_shape.0;
        let p_top: Option<usize> = arg_max_in(p.as_slice(), p_start, p_end);
        let y_top: Option<usize> = arg_max_in(y.as_slice(), y_start, y_end);
        assert(p@.subrange(p_start as int, p_end as int) == predicted@.column(j as int));
        assert(y@.subrange(y_start as int, y_end as int) == labels@.column(j as int));
        match (p_top, y_top) {
            (Some(a), Some(b)) => {
                if a == b {
                    correct = correct + 1;
                }
            },
            _ => {
                assert(!column_decided(predicted@, labels@, j as int));
                return None;
            },
        }
        p_start = p_end;
        y_start = y_end;
        j = j + 1;
    }
    Some(correct)
}

/// A network: its layers from the input on, the options of its training, and
/// its optimizer.
pub struct NN<O: Optimizer> {
    pub layers: Vec<Layer>,
    pub options: NNOptions,
    pub optimizer: O,
    pub test_accuracy: u32,
}

impl<O: Optimizer> NN<O> {
    /// Whether every layer's two handles name slots of the optimizer that
    /// were registered with the shapes of its weights and its bias.
    pub open spec fn registered(&self) -> bool {
        forall|i: int|
            0 <= i < self.layers@.len() ==> {
                &&& (#[trigger] self.layers@[i]).weights_index < self.optimizer.shapes().len()
                &&& self.optimizer.shapes()[self.layers@[i].weights_index as int]
                    == self.layers@[i].weights@.shape()
                &&& self.layers@[i].bias_index < self.optimizer.shapes().len()
                &&& self.optimizer.shapes()[self.layers@[i].bias_index as int]
                    == self.layers@[i].bias@.shape()
            }
    }

    /// The handles of all parameter tensors: for each layer in turn, that of
    /// its weights and then that of its bias.
    pub open spec fn handles(&self) -> Seq<usize> {
        Seq::new(
            2 * self.layers@.len(),
            |k: int|
                if k % 2 == 0 {
                    self.layers@[k / 2].weights_index
                } else {
                    self.layers@[k / 2].bias_index
                },
        )
    }

    /// Whether no two parameter tensors share a slot of the optimizer.
    pub open spec fn slots_apart(&self) -> bool {
        self.handles().no_duplicates()
    }

    /// The layers fit one another, and each has its own two slots in the
    /// optimizer.
    pub open spec fn wf(&self) -> bool {
        &&& self.optimizer.wf()
        &&& forall|i: int| 0 <= i < self.layers@.len() ==> (#[trigger] self.layers@[i]).wf()
        &&& chained(self.layers@)
        &&& self.registered()
        &&& self.slots_apart()
    }

    /// A network of the given parts, with no accuracy measured yet.
    pub fn new(layers: Vec<Layer>, options: NNOptions, optimizer: O) -> (nn: NN<O>)
        ensures
            nn.layers == layers,
            nn.options == options,
            nn.optimizer == optimizer,
            nn.test_accuracy == 0,
    {
        NN { layers, options, optimizer, test_accuracy: 0 }
    }

    /// Tells the shape of what a forward pass gives for a batch of the given
    /// shape, or `None` if some layer does not take what reaches it.
    pub fn forward_shape(&self, input: (usize, usize)) -> (r: Option<(usize, usize)>)
        ensures
            match r {
                Some(s) => shape_after(self.layers@, (input.0 as nat, input.1 as nat)) == Some(
                    (s.0 as nat, s.1 as nat),
                ),
                None => shape_after(self.layers@, (input.0 as nat, input.1 as nat)) is None,
            },
    {
        let mut shape: (usize, usize) = input;
        let mut i: usize = 0;
        let ghost start: (nat, nat) = (input.0 as nat, input.1 as nat);
        assert(self.layers@.take(0) =~= Seq::<Layer>::empty());
        while i < self.layers.len()
            invariant
                i <= self.layers.len(),
                start == (input.0 as nat, input.1 as nat),
                shape_after(self.layers@.take(i as int), start) == Some(
                    (shape.0 as nat, shape.1 as nat),
                ),
            decreases self.layers.len() - i,
        {
            let layer: &Layer = &self.layers[i];
            proof {
                let now: Seq<Layer> = self.layers@.take(i + 1);
                assert(now.drop_last() =~= self.layers@.take(i as int));
                assert(now.last() == self.layers@[i as int]);
            }
            if shape.0 != layer.inputs() {
                proof {
                    lemma_shape_lost(self.layers@, i + 1, start);
                }
                return None;
            }
            shape = (layer.neurons(), shape.1);
            i = i + 1;
        }
        assert(self.layers@.take(self.layers.len() as int) =~= self.layers@);
        Some(shape)
    }

    /// Keeps the accuracy measured on the held-out set.
    pub fn set_test_accuracy(&mut self, accuracy: u32)
        ensures
            final(self).test_accuracy == accuracy,
            final(self).layers == old(self).layers,
            final(self).options == old(self).options,
            final(self).optimizer == old(self).optimizer,
    {
        self.test_accuracy = accuracy;
    }
}

/// Once a layer does not take what reaches it, nothing comes out.
proof fn lemma_shape_lost(layers: Seq<Layer>, k: int, input: (nat, nat))
    requires
        0 <= k <= layers.len(),
        shape_after(layers.take(k), input) is None,
    ensures
        shape_after(layers, input) is None,
    decreases layers.len() - k,
{
    if k < layers.len() {
        assert(layers.take(k + 1).drop_last() =~= layers.take(k));
        lemma_shape_lost(layers, k + 1, input);
    } else {
        assert(layers.take(k) =~= layers);
    }
}

/// The shape law of the forward pass: through layers that fit one another, a
/// batch with one row per input of the first layer comes out with one row per
/// neuron of the last layer and with all its columns, whatever their number;
/// a batch of any other height does not get through.
pub proof fn lemma_forward_shape(layers: Seq<Layer>, input: (nat, nat))
    requires
        chained(layers),
        layers.len() >= 1,
    ensures
        input.0 == layers[0].num_inputs() ==> shape_after(layers, input) == Some(
            (layers.last().num_neurons(), input.1),
        ),
        input.0 != layers[0].num_inputs() ==> shape_after(layers, input) is None,
    decreases layers.len(),
{
    let front: Seq<Layer> = layers.drop_last();
    if layers.len() == 1 {
        assert(front =~= Seq::<Layer>::empty());
        assert(shape_after(front, input) == Some(input));
        assert(layers.last() == layers[0]);
    } else {
        assert forall|i: int| 0 < i < front.len() implies (#[trigger] front[i]).num_inputs()
            == front[i - 1].num_neurons() by {
            assert(front[i] == layers[i]);
            assert(front[i - 1] == layers[i - 1]);
        }
        lemma_forward_shape(front, input);
        assert(front[0] == layers[0]);
        assert(front.last() == layers[layers.len() - 2]);
        assert(layers.last() == layers[layers.len() - 1]);
    }
}

/// A network whose layers hold the handles `0, 1, 2, ...` in order, each
/// registered with the shape of its tensor, has every tensor in a slot of its
/// own.
proof fn lemma_counted_handles<O: Optimizer>(nn: &NN<O>)
    requires
        nn.optimizer.shapes().len() == 2 * nn.layers@.len(),
        forall|k: int|
            0 <= k < nn.layers@.len() ==> {
                &&& (#[trigger] nn.layers@[k]).weights_index == 2 * k
                &&& nn.layers@[k].bias_index == 2 * k + 1
                &&& nn.optimizer.shapes()[2 * k] == nn.layers@[k].weights@.shape()
                &&& nn.optimizer.shapes()[2 * k + 1] == nn.layers@[k].bias@.shape()
            },
    ensures
        nn.registered(),
        nn.slots_apart(),
{
    let h: Seq<usize> = nn.handles();
    assert forall|k: int| 0 <= k < h.len() implies #[trigger] h[k] == k by {
        let layer: Layer = nn.layers@[k / 2];
        assert(layer.weights_index == 2 * (k / 2));
    }
    assert forall|i: int| 0 <= i < nn.layers@.len() implies {
        &&& (#[trigger] nn.layers@[i]).weights_index < nn.optimizer.shapes().len()
        &&& nn.optimizer.shapes()[nn.layers@[i].weights_index as int]
            == nn.layers@[i].weights@.shape()
        &&& nn.layers@[i].bias_index < nn.optimizer.shapes().len()
        &&& nn.optimizer.shapes()[nn.layers@[i].bias_index as int] == nn.layers@[i].bias@.shape()
    } by {
        assert(nn.layers@[i].weights_index == 2 * i);
    }
}

/// In a well-formed network the optimizer takes the gradients of every
/// backward step: the handles of a layer name slots that were registered with
/// the very shapes that `backward_shapes` gives for its gradients, and the
/// four handles of two layers are four slots.
pub proof fn lemma_gradients_are_taken<O: Optimizer>(nn: &NN<O>, i: int, j: int)
    requires
        nn.wf(),
        0 <= i < nn.layers@.len(),
        0 <= j < nn.layers@.len(),
    ensures
        nn.layers@[i].weights_index < nn.optimizer.shapes().len(),
        nn.optimizer.shapes()[nn.layers@[i].weights_index as int]
            == nn.layers@[i].weights@.shape(),
        nn.layers@[i].bias_index < nn.optimizer.shapes().len(),
        nn.optimizer.shapes()[nn.layers@[i].bias_index as int] == nn.layers@[i].bias@.shape(),
        nn.layers@[i].weights_index != nn.layers@[j].bias_index,
        i != j ==> nn.layers@[i].weights_index != nn.layers@[j].weights_index,
        i != j ==> nn.layers@[i].bias_index != nn.layers@[j].bias_index,
{
    let h: Seq<usize> = nn.handles();
    assert(h[2 * i] == nn.layers@[i].weights_index);
    assert(h[2 * i + 1] == nn.layers@[i].bias_index);
    assert(h[2 * j] == nn.layers@[j].weights_index);
    assert(h[2 * j + 1] == nn.layers@[j].bias_index);
}

/// Puts a network together layer by layer.
pub struct NNBuilder {
    pub layers: Vec<Layer>,
    pub num_inputs: usize,
    pub options: NNOptions,
    pub optimizer_type: OptimizerType,
}

impl NNBuilder {
    /// What the next layer will be fed: the outputs of the last layer, or the
    /// inputs of the network if there is no layer yet.
    pub open spec fn output_width(&self) -> nat {
        if self.layers@.len() == 0 {
            self.num_inputs as nat
        } else {
            self.layers@.last().num_neurons()
        }
    }

    /// The layers fit one another and the first takes the network's inputs.
    pub open spec fn wf(&self) -> bool {
        &&& forall|i: int| 0 <= i < self.layers@.len() ==> (#[trigger] self.layers@[i]).wf()
        &&& chained(self.layers@)
        &&& self.layers@.len() > 0 ==> self.layers@[0].num_inputs() == self.num_inputs
    }

    /// A builder for a network of `num_inputs` inputs, with no layer yet,
    /// the standard options and plain gradient descent.
    pub fn new(num_inputs: usize) -> (b: NNBuilder)
        ensures
            b.wf(),
            b.layers@.len() == 0,
            b.num_inputs == num_inputs,
            b.options == NNOptions::standard(),
            b.optimizer_type == OptimizerType::Default,
    {
        NNBuilder {
            layers: Vec::new(),
            num_inputs,
            options: NNOptions::default(),
            optimizer_type: OptimizerType::Default,
        }
    }

    /// Sets the options.
    pub fn options(self, options: NNOptions) -> (b: NNBuilder)
        ensures
            b.options == options,
            b.layers == self.layers,
            b.num_inputs == self.num_inputs,
            b.optimizer_type == self.optimizer_type,
    {
        let mut b = self;
        b.options = options;
        b
    }

    /// Sets the kind of the optimizer.
    pub fn optimizer(self, optimizer_type: OptimizerType) -> (b: NNBuilder)
        ensures
            b.optimizer_type == optimizer_type,
            b.layers == self.layers,
            b.num_inputs == self.num_inputs,
            b.options == self.options,
    {
        let mut b = self;
        b.optimizer_type = optimizer_type;
        b
    }

    /// Tells whether the builder is well formed.
    pub fn check(&self) -> (ok: bool)
        ensures
            ok == self.wf(),
    {
        let n: usize = self.layers.len();
        let mut i: usize = 0;
        while i < n
            invariant
                i <= n,
                n == self.layers@.len(),
                forall|k: int| 0 <= k < i ==> (#[trigger] self.layers@[k]).wf(),
                forall|k: int|
                    0 < k < i ==> (#[trigger] self.layers@[k]).num_inputs() == self.layers@[k
                        - 1].num_neurons(),
                i > 0 ==> self.layers@[0].num_inputs() == self.num_inputs,
            decreases n - i,
        {
            if !self.layers[i].check() {
                return false;
            }
            let fed: usize = if i == 0 {
                self.num_inputs
            } else {
                self.layers[i - 1].neurons()
            };
            if self.layers[i].inputs() != fed {
                return false;
            }
            i = i + 1;
        }
        true
    }

    /// Adds a layer that was made elsewhere behind the layers so far. `None`
    /// comes back exactly when the layer is not well formed or does not take
    /// what it would be fed.
    pub fn with_layer(self, layer: Layer) -> (r: Option<NNBuilder>)
        requires
            self.wf(),
        ensures
            r is Some <==> layer.wf() && layer.num_inputs() == self.output_width(),
            r matches Some(b) ==> {
                &&& b.wf()
                &&& b.num_inputs == self.num_inputs
                &&& b.options == self.options
                &&& b.optimizer_type == self.optimizer_type
                &&& b.layers@ == self.layers@.push(layer)
            },
    {
        if !layer.check() || layer.inputs() != self.width() {
            return None;
        }
        let mut b = self;
        b.layers.push(layer);
        assert(chained(b.layers@)) by {
            assert forall|i: int| 0 < i < b.layers@.len() implies (
            #[trigger] b.layers@[i]).num_inputs() == b.layers@[i - 1].num_neurons() by {
                if i < self.layers@.len() {
                    assert(b.layers@[i] == self.layers@[i]);
                    assert(b.layers@[i - 1] == self.layers@[i - 1]);
                } else {
                    assert(b.layers@[i - 1] == self.layers@.last());
                }
            }
        }
        assert(b.layers@[0] == if self.layers@.len() == 0 {
            layer
        } else {
            self.layers@[0]
        });
        Some(b)
    }

    /// Tells what the next layer will be fed.
    pub fn width(&self) -> (w: usize)
        ensures
            w == self.output_width(),
    {
        let n: usize = self.layers.len();
        if n == 0 {
            self.num_inputs
        } else {
            self.layers[n - 1].neurons()
        }
    }

    /// Adds a layer of `num_neurons` neurons behind the layers so far. It
    /// takes what the last layer gives, or the network's inputs if it is the
    /// first. Its weights and its bias are zero, and its caches are laid out
    /// for the batch size of the options as they stand. The weights and the
    /// caches must have cell counts that fit a `usize`.
    pub fn add_layer(self, num_neurons: usize, activation_type: ActivationType) -> (b: NNBuilder)
        requires
            self.wf(),
            num_neurons * self.output_width() <= usize::MAX,
            num_neurons * self.options.batch_size <= usize::MAX,
        ensures
            b.wf(),
            b.num_inputs == self.num_inputs,
            b.options == self.options,
            b.optimizer_type == self.optimizer_type,
            b.layers@.len() == self.layers@.len() + 1,
            b.layers@.drop_last() == self.layers@,
            b.layers@.last().weights@ == Grid::zeros(num_neurons as nat, self.output_width()),
            b.layers@.last().bias@ == Grid::zeros(num_neurons as nat, 1),
            b.layers@.last().a@ == Grid::zeros(
                num_neurons as nat,
                self.options.batch_size as nat,
            ),
            b.layers@.last().z@ == b.layers@.last().a@,
            b.layers@.last().activation.activation_type == activation_type,
            b.layers@.last().weights_index == 0,
            b.layers@.last().bias_index == 0,
            b.output_width() == num_neurons,
    {
        let num_inputs: usize = self.width();
        let layer: Layer = Layer::new(
            num_inputs,
            num_neurons,
            activation_type.activation(),
            self.options.batch_size,
        ).unwrap();
        let mut b = self;
        b.layers.push(layer);
        assert(b.layers@.drop_last() =~= self.layers@);
        assert(chained(b.layers@)) by {
            assert forall|i: int| 0 < i < b.layers@.len() implies (
            #[trigger] b.layers@[i]).num_inputs() == b.layers@[i - 1].num_neurons() by {
                if i < self.layers@.len() {
                    assert(b.layers@[i] == self.layers@[i]);
                    assert(b.layers@[i - 1] == self.layers@[i - 1]);
                } else {
                    assert(b.layers@[i - 1] == self.layers@.last());
                }
            }
        }
        b
    }

    /// Makes the network: a fresh optimizer of the chosen kind, with which
    /// each layer registers its weights and then its bias, in the order of
    /// the layers. If the run is to stop at an accuracy on the held-out set,
    /// measuring that accuracy is switched on, whatever the options say.
    pub fn build(self) -> (nn: NN<AnyOptimizer>)
        requires
            self.wf(),
        ensures
            nn.wf(),
            nn.optimizer.rule() == self.optimizer_type,
            nn.optimizer.shapes().len() == 2 * self.layers@.len(),
            nn.options == (NNOptions {
                test: self.options.test || self.options.stop_condition is TestAccuracy,
                ..self.options
            }),
            nn.test_accuracy == 0,
            nn.layers@.len() == self.layers@.len(),
            forall|i: int|
                0 <= i < self.layers@.len() ==> {
                    &&& (#[trigger] nn.layers@[i]).weights@ == self.layers@[i].weights@
                    &&& nn.layers@[i].bias@ == self.layers@[i].bias@
                    &&& nn.layers@[i].a@ == self.layers@[i].a@
                    &&& nn.layers@[i].z@ == self.layers@[i].z@
                    &&& nn.layers@[i].activation == self.layers@[i].activation
                    &&& nn.layers@[i].weights_index == 2 * i
                    &&& nn.layers@[i].bias_index == 2 * i + 1
                },
    {
        let mut optimizer: AnyOptimizer = self.optimizer_type.optimizer();
        let mut options: NNOptions = self.options;
        if options.stop_condition.needs_test() {
            options.test = true;
        }
        let mut layers: Vec<Layer> = self.layers;
        let ghost given: Seq<Layer> = layers@;
        let mut i: usize = 0;
        while i < layers.len()
            invariant
                i <= layers.len(),
                layers@.len() == given.len(),
                optimizer.wf(),
                optimizer.rule() == self.optimizer_type,
                optimizer.shapes().len() == 2 * i,
                chained(given),
                forall|k: int| 0 <= k < given.len() ==> (#[trigger] given[k]).wf(),
                forall|k: int|
                    0 <= k < layers@.len() ==> {
                        &&& (#[trigger] layers@[k]).weights@ == given[k].weights@
                        &&& layers@[k].bias@ == given[k].bias@
                        &&& layers@[k].a@ == given[k].a@
                        &&& layers@[k].z@ == given[k].z@
                        &&& layers@[k].activation == given[k].activation
                    },
                forall|k: int|
                    0 <= k < i ==> {
                        &&& (#[trigger] layers@[k]).weights_index == 2 * k
                        &&& layers@[k].bias_index == 2 * k + 1
                        &&& optimizer.shapes()[2 * k] == given[k].weights@.shape()
                        &&& optimizer.shapes()[2 * k + 1] == given[k].bias@.shape()
                    },
            decreases layers.len() - i,
        {
            let ghost before: Seq<Layer> = layers@;
            let ghost shapes: Seq<(nat, nat)> = optimizer.shapes();
            assert(layers@[i as int].wf()) by {
                assert(given[i as int].wf());
            }
            layers[i].init(&mut optimizer);
            proof {
                assert forall|k: int| 0 <= k < layers@.len() && k != i implies layers@[k]
                    == before[k] by {}
                assert forall|k: int| 0 <= k < i + 1 implies {
                    &&& (#[trigger] layers@[k]).weights_index == 2 * k
                    &&& layers@[k].bias_index == 2 * k + 1
                    &&& optimizer.shapes()[2 * k] == given[k].weights@.shape()
                    &&& optimizer.shapes()[2 * k + 1] == given[k].bias@.shape()
                } by {
                    if k < i {
                        assert(layers@[k] == before[k]);
                        assert(optimizer.shapes()[2 * k] == shapes[2 * k]);
                        assert(optimizer.shapes()[2 * k + 1] == shapes[2 * k + 1]);
                    }
                }
            }
            i = i + 1;
        }
        let nn: NN<AnyOptimizer> = NN::new(layers, options, optimizer);
        proof {
            assert forall|k: int| 0 <= k < nn.layers@.len() implies (#[trigger] nn.layers@[k]).wf() by {
                assert(given[k].wf());
            }
            assert(chained(nn.layers@)) by {
                assert forall|k: int| 0 < k < nn.layers@.len() implies (
                #[trigger] nn.layers@[k]).num_inputs() == nn.layers@[k - 1].num_neurons() by {
                    assert(given[k].num_inputs() == given[k - 1].num_neurons());
                }
            }
            lemma_counted_handles(&nn);
        }
        nn
    }
}

} // verus!
