//! One layer: an affine map followed by an activation, with the caches of
//! its latest forward step and its two handles into the optimizer.

use crate::activation::Activation;
use crate::matrix::{Grid, Matrix};
use crate::optimizers::{fresh_buffers, Optimizer};
use vstd::prelude::*;

verus! {

/// A dense layer. The weights have one row per neuron and one column per
/// input; the bias has one row per neuron; `z` and `a` hold what the latest
/// forward step computed before and after the activation, one column per
/// sample of its batch.
pub struct Layer {
    pub bias: Matrix,
    pub weights: Matrix,
    pub activation: Activation,
    pub a: Matrix,
    pub z: Matrix,
    pub weights_index: usize,
    pub bias_index: usize,
}

/// The shapes that a backward step deals in.
#[derive(Clone, Copy, Debug, PartialEq, Eq)]
pub struct Gradients {
    /// The shape of the gradient of the weights.
    pub weights: (usize, usize),
    /// The shape of the gradient of the bias.
    pub bias: (usize, usize),
    /// The shape of the delta handed to the layer below.
    pub below: (usize, usize),
}

impl Layer {
    /// The number of neurons.
    pub open spec fn num_neurons(&self) -> nat {
        self.weights@.rows
    }

    /// The number of inputs each neuron takes.
    pub open spec fn num_inputs(&self) -> nat {
        self.weights@.cols
    }

    /// The number of samples the caches are laid out for.
    pub open spec fn batch(&self) -> nat {
        self.a@.cols
    }

    /// The bias and the caches have one row per neuron, and the two caches
    /// have one shape.
    pub open spec fn wf(&self) -> bool {
        &&& self.weights@.wf()
        &&& self.bias@.wf()
        &&& self.a@.wf()
        &&& self.z@.wf()
        &&& self.bias@.shape() == (self.num_neurons(), 1nat)
        &&& self.a@.rows == self.num_neurons()
        &&& self.z@.shape() == self.a@.shape()
    }

    /// Whether `other` is this layer but for the caches.
    pub open spec fn same_parameters(&self, other: &Layer) -> bool {
        &&& self.weights@ == other.weights@
        &&& self.bias@ == other.bias@
        &&& self.activation == other.activation
        &&& self.weights_index == other.weights_index
        &&& self.bias_index == other.bias_index
    }

    /// Whether a batch of the given shape can be fed to the layer: it has
    /// one row per input, and the layer's output for it has a cell count that
    /// fits a `usize`.
    pub open spec fn takes(&self, input: (nat, nat)) -> bool {
        input.0 == self.num_inputs() && self.num_neurons() * input.1 <= usize::MAX
    }

    /// A layer of `num_neurons` neurons over `num_inputs` inputs, with
    /// weights, bias and caches all zero and no handles yet; the caller puts
    /// the starting weights in with `set_weights`. `None` comes back exactly
    /// when the weights or the caches would have more cells than a `usize`
    /// can count.
    pub fn new(num_inputs: usize, num_neurons: usize, activation: Activation, batch_size: usize) -> (r:
        Option<Layer>)
        ensures
            r is Some <==> num_neurons * num_inputs <= usize::MAX && num_neurons * batch_size
                <= usize::MAX,
            r matches Some(l) ==> {
                &&& l.wf()
                &&& l.weights@ == Grid::zeros(num_neurons as nat, num_inputs as nat)
                &&& l.bias@ == Grid::zeros(num_neurons as nat, 1)
                &&& l.a@ == Grid::zeros(num_neurons as nat, batch_size as nat)
                &&& l.z@ == Grid::zeros(num_neurons as nat, batch_size as nat)
                &&& l.activation == activation
                &&& l.weights_index == 0
                &&& l.bias_index == 0
            },
    {
        let weights: Matrix = match Matrix::zeros(num_neurons, num_inputs) {
            Some(m) => m,
            None => {
                return None;
            },
        };
        let a: Matrix = match Matrix::zeros(num_neurons, batch_size) {
            Some(m) => m,
            None => {
                return None;
            },
        };
        let z: Matrix = match Matrix::zeros(num_neurons, batch_size) {
            Some(m) => m,
            None => {
                return None;
            },
        };
        assert(num_neurons * 1 == num_neurons) by (nonlinear_arith);
        let bias: Matrix = match Matrix::zeros(num_neurons, 1) {
            Some(m) => m,
            None => {
                return None;
            },
        };
        Some(Layer { bias, weights, activation, a, z, weights_index: 0, bias_index: 0 })
    }

    /// A layer with the given weights and bias, with caches of zeros laid
    /// out for `batch_size` samples and no handles yet. `None` comes back
    /// exactly when the bias is not one column with a row per row of the
    /// weights, or the caches would have more cells than a `usize` can count.
    pub fn from_parts(weights: Matrix, bias: Matrix, activation: Activation, batch_size: usize) -> (r:
        Option<Layer>)
        ensures
            r is Some <==> bias@.shape() == (weights@.rows, 1nat) && weights@.rows * batch_size
                <= usize::MAX,
            r matches Some(l) ==> {
                &&& l.wf()
                &&& l.weights@ == weights@
                &&& l.bias@ == bias@
                &&& l.a@ == Grid::zeros(weights@.rows, batch_size as nat)
                &&& l.z@ == l.a@
                &&& l.activation == activation
                &&& l.weights_index == 0
                &&& l.bias_index == 0
            },
    {
        let held: (usize, usize) = weights.shape();
        let given: (usize, usize) = bias.shape();
        if given.0 != held.0 || given.1 != 1 {
            return None;
        }
        let a: Matrix = match Matrix::zeros(held.0, batch_size) {
            Some(m) => m,
            None => {
                return None;
            },
        };
        let z: Matrix = match Matrix::zeros(held.0, batch_size) {
            Some(m) => m,
            None => {
                return None;
            },
        };
        Some(Layer { bias, weights, activation, a, z, weights_index: 0, bias_index: 0 })
    }

    /// Tells whether the layer is well formed.
    pub fn check(&self) -> (ok: bool)
        ensures
            ok == self.wf(),
    {
        let w: (usize, usize) = self.weights.shape();
        let b: (usize, usize) = self.bias.shape();
        let a: (usize, usize) = self.a.shape();
        let z: (usize, usize) = self.z.shape();
        b.0 == w.0 && b.1 == 1 && a.0 == w.0 && z.0 == a.0 && z.1 == a.1
    }

    /// Registers the weights and then the bias with the optimizer and keeps
    /// the two handles.
    pub fn init<O: Optimizer>(&mut self, optimizer: &mut O)
        requires
            old(self).wf(),
            old(optimizer).wf(),
        ensures
            final(self).wf(),
            final(optimizer).wf(),
            final(self).weights@ == old(self).weights@,
            final(self).bias@ == old(self).bias@,
            final(self).a@ == old(self).a@,
            final(self).z@ == old(self).z@,
            final(self).activation == old(self).activation,
            final(self).weights_index == old(optimizer).shapes().len(),
            final(self).bias_index == old(optimizer).shapes().len() + 1,
            final(optimizer).shapes() == old(optimizer).shapes().push(
                old(self).weights@.shape(),
            ).push(old(self).bias@.shape()),
            final(optimizer).buffers() == old(optimizer).buffers().push(
                fresh_buffers(old(optimizer).per_slot(), old(self).weights@.shape()),
            ).push(fresh_buffers(old(optimizer).per_slot(), old(self).bias@.shape())),
            final(optimizer).rule() == old(optimizer).rule(),
            final(optimizer).per_slot() == old(optimizer).per_slot(),
    {
        let weights_shape: (usize, usize) = self.weights.shape();
        let bias_shape: (usize, usize) = self.bias.shape();
        self.weights_index = optimizer.add_variables(weights_shape);
        self.bias_index = optimizer.add_variables(bias_shape);
    }

    /// Tells the number of neurons.
    pub fn neurons(&self) -> (n: usize)
        ensures
            n == self.num_neurons(),
    {
        self.weights.nrows()
    }

    /// Tells the number of inputs each neuron takes.
    pub fn inputs(&self) -> (n: usize)
        ensures
            n == self.num_inputs(),
    {
        self.weights.ncols()
    }

    /// Puts new weights in place of the old ones. Returns false, and changes
    /// nothing, unless they have the shape of the old ones.
    pub fn set_weights(&mut self, weights: Matrix) -> (done: bool)
        ensures
            done <==> weights@.shape() == old(self).weights@.shape(),
            final(self).weights@ == (if done {
                weights@
            } else {
                old(self).weights@
            }),
            final(self).bias@ == old(self).bias@,
            final(self).a@ == old(self).a@,
            final(self).z@ == old(self).z@,
            final(self).activation == old(self).activation,
            final(self).weights_index == old(self).weights_index,
            final(self).bias_index == old(self).bias_index,
            old(self).wf() ==> final(self).wf(),
    {
        let held: (usize, usize) = self.weights.shape();
        let given: (usize, usize) = weights.shape();
        if held.0 == given.0 && held.1 == given.1 {
            self.weights = weights;
            true
        } else {
            false
        }
    }

    /// Puts a new bias in place of the old one. Returns false, and changes
    /// nothing, unless it has the shape of the old one.
    pub fn set_bias(&mut self, bias: Matrix) -> (done: bool)
        ensures
            done <==> bias@.shape() == old(self).bias@.shape(),
            final(self).bias@ == (if done {
                bias@
            } else {
                old(self).bias@
            }),
            final(self).weights@ == old(self).weights@,
            final(self).a@ == old(self).a@,
            final(self).z@ == old(self).z@,
            final(self).activation == old(self).activation,
            final(self).weights_index == old(self).weights_index,
            final(self).bias_index == old(self).bias_index,
            old(self).wf() ==> final(self).wf(),
    {
        let held: (usize, usize) = self.bias.shape();
        let given: (usize, usize) = bias.shape();
        if held.0 == given.0 && held.1 == given.1 {
            self.bias = bias;
            true
        } else {
            false
        }
    }

    /// Makes the layer ready for a forward step over a batch of the given
    /// shape: checks that the batch has one row per input, and lays the
    /// caches out anew, filled with zeros, if the number of samples differs
    /// from that of the step before. Returns false, and changes nothing,
    /// unless the layer takes a batch of that shape.
    pub fn prepare(&mut self, input: (usize, usize)) -> (ready: bool)
        requires
            old(self).wf(),
        ensures
            final(self).wf(),
            ready <==> old(self).takes((input.0 as nat, input.1 as nat)),
            final(self).same_parameters(old(self)),
            ready ==> final(self).batch() == input.1,
            ready && old(self).batch() != input.1 ==> final(self).a@ == Grid::zeros(
                old(self).num_neurons(),
                input.1 as nat,
            ) && final(self).z@ == final(self).a@,
            !ready || old(self).batch() == input.1 ==> final(self).a@ == old(self).a@,
            !ready || old(self).batch() == input.1 ==> final(self).z@ == old(self).z@,
    {
        let held: (usize, usize) = self.weights.shape();
        let cached: (usize, usize) = self.a.shape();
        if input.0 != held.1 {
            return false;
        }
        if cached.1 == input.1 {
            return true;
        }
        let a: Matrix = match Matrix::zeros(held.0, input.1) {
            Some(m) => m,
            None => {
                return false;
            },
        };
        let z: Matrix = match Matrix::zeros(held.0, input.1) {
            Some(m) => m,
            None => {
                return false;
            },
        };
        self.a = a;
        self.z = z;
        true
    }

    /// Whether a backward step can take a delta and the output of the layer
    /// below of the given shapes: the delta has the shape of the caches, and
    /// the output below has one row per input and one column per sample of
    /// the caches.
    pub open spec fn backs(&self, delta: (nat, nat), below: (nat, nat)) -> bool {
        delta == self.z@.shape() && below == (self.num_inputs(), self.batch())
    }

    /// Tells the shapes that a backward step deals in, for a delta and an
    /// output of the layer below of the given shapes: the gradient of the
    /// weights has the shape of the weights, that of the bias the shape of
    /// the bias, and the delta for the layer below the shape of that layer's
    /// output. `None` comes back exactly when the step cannot take the two.
    pub fn backward_shapes(&self, delta: (usize, usize), below: (usize, usize)) -> (r: Option<
        Gradients,
    >)
        requires
            self.wf(),
        ensures
            r is Some <==> self.backs(
                (delta.0 as nat, delta.1 as nat),
                (below.0 as nat, below.1 as nat),
            ),
            r matches Some(g) ==> {
                &&& (g.weights.0 as nat, g.weights.1 as nat) == self.weights@.shape()
                &&& (g.bias.0 as nat, g.bias.1 as nat) == self.bias@.shape()
                &&& g.below == below
            },
    {
        let cached: (usize, usize) = self.z.shape();
        let weights: (usize, usize) = self.weights.shape();
        let bias: (usize, usize) = self.bias.shape();
        if delta.0 == cached.0 && delta.1 == cached.1 && below.0 == weights.1 && below.1
            == cached.1 {
            Some(Gradients { weights, bias, below })
        } else {
            None
        }
    }

    /// Keeps what a forward step computed: `z` before the activation and `a`
    /// after it. Returns false, and changes nothing, unless both have the
    /// shape of the caches.
    pub fn store(&mut self, z: Matrix, a: Matrix) -> (done: bool)
        requires
            old(self).wf(),
        ensures
            final(self).wf(),
            done <==> z@.shape() == old(self).a@.shape() && a@.shape() == old(self).a@.shape(),
            final(self).same_parameters(old(self)),
            final(self).a@ == (if done {
                a@
            } else {
                old(self).a@
            }),
            final(self).z@ == (if done {
                z@
            } else {
                old(self).z@
            }),
    {
        let held: (usize, usize) = self.a.shape();
        let z_shape: (usize, usize) = z.shape();
        let a_shape: (usize, usize) = a.shape();
        if z_shape.0 == held.0 && z_shape.1 == held.1 && a_shape.0 == held.0 && a_shape.1
            == held.1 {
            self.z = z;
            self.a = a;
            true
        } else {
            false
        }
    }
}

} // verus!
