//! Adam: under every handle a momentum and a velocity buffer.

use crate::matrix::{Grid, Matrix};
use crate::optimizers::{fresh_buffers, Optimizer, OptimizerType};
use vstd::prelude::*;

verus! {

/// The number of the momentum buffer under a handle.
pub const MOMENTUM: usize = 0;

/// The number of the velocity buffer under a handle.
pub const VELOCITY: usize = 1;

/// The state of Adam: per registered tensor, the moving average of its
/// gradient and that of the gradient's square.
pub struct AdamOptimizer {
    pub momentum: Vec<Matrix>,
    pub velocity: Vec<Matrix>,
}

impl AdamOptimizer {
    /// An optimizer with nothing registered.
    pub fn new() -> (o: AdamOptimizer)
        ensures
            o.wf(),
            o.shapes().len() == 0,
            o.buffers().len() == 0,
            o.rule() == OptimizerType::Adam,
    {
        AdamOptimizer { momentum: Vec::new(), velocity: Vec::new() }
    }

    /// An optimizer with nothing registered, in a box.
    pub fn boxed() -> (o: Box<AdamOptimizer>)
        ensures
            o.wf(),
            o.shapes().len() == 0,
            o.buffers().len() == 0,
            o.rule() == OptimizerType::Adam,
    {
        Box::new(AdamOptimizer::new())
    }
}

impl Default for AdamOptimizer {
    fn default() -> (o: AdamOptimizer)
        ensures
            o.wf(),
            o.shapes().len() == 0,
            o.buffers().len() == 0,
    {
        AdamOptimizer::new()
    }
}

impl Optimizer for AdamOptimizer {
    open spec fn shapes(&self) -> Seq<(nat, nat)> {
        Seq::new(self.momentum@.len(), |i: int| self.momentum@[i]@.shape())
    }

    open spec fn buffers(&self) -> Seq<Seq<Grid>> {
        Seq::new(self.momentum@.len(), |i: int| seq![self.momentum@[i]@, self.velocity@[i]@])
    }

    open spec fn per_slot(&self) -> nat {
        2
    }

    open spec fn rule(&self) -> OptimizerType {
        OptimizerType::Adam
    }

    open spec fn wf(&self) -> bool {
        &&& self.momentum@.len() == self.velocity@.len()
        &&& forall|i: int|
            0 <= i < self.momentum@.len() ==> {
                &&& (#[trigger] self.momentum@[i])@.wf()
                &&& self.velocity@[i]@.wf()
                &&& self.velocity@[i]@.shape() == self.momentum@[i]@.shape()
            }
    }

    fn check(&self) -> (ok: bool) {
        if self.momentum.len() != self.velocity.len() {
            return false;
        }
        let mut i: usize = 0;
        while i < self.momentum.len()
            invariant
                i <= self.momentum.len(),
                self.momentum.len() == self.velocity.len(),
                forall|k: int|
                    0 <= k < i ==> {
                        &&& (#[trigger] self.momentum@[k])@.wf()
                        &&& self.velocity@[k]@.wf()
                        &&& self.velocity@[k]@.shape() == self.momentum@[k]@.shape()
                    },
            decreases self.momentum.len() - i,
        {
            let m: (usize, usize) = self.momentum[i].shape();
            let v: (usize, usize) = self.velocity[i].shape();
            if m.0 != v.0 || m.1 != v.1 {
                return false;
            }
            i = i + 1;
        }
        true
    }

    fn kind(&self) -> (k: OptimizerType) {
        OptimizerType::Adam
    }

    fn add_variables(&mut self, shape: (usize, usize)) -> (index: usize) {
        let index: usize = self.momentum.len();
        let m: Matrix = Matrix::zeros(shape.0, shape.1).unwrap();
        let v: Matrix = Matrix::zeros(shape.0, shape.1).unwrap();
        self.momentum.push(m);
        self.velocity.push(v);
        proof {
            let s: (nat, nat) = (shape.0 as nat, shape.1 as nat);
            assert(self.shapes() =~= old(self).shapes().push(s));
            assert(fresh_buffers(2, s) =~= seq![Grid::zeros(s.0, s.1), Grid::zeros(s.0, s.1)]);
            assert(self.buffers() =~= old(self).buffers().push(fresh_buffers(2, s)));
        }
        index
    }

    fn accepts(&self, index: usize, shape: (usize, usize)) -> (ok: bool) {
        if index < self.momentum.len() {
            let held: (usize, usize) = self.momentum[index].shape();
            held.0 == shape.0 && held.1 == shape.1
        } else {
            false
        }
    }

    fn buffers_per_slot(&self) -> (n: usize) {
        2
    }

    fn buffer(&self, index: usize, which: usize) -> (b: Option<&Matrix>) {
        if index < self.momentum.len() {
            if which == MOMENTUM {
                Some(&self.momentum[index])
            } else if which == VELOCITY {
                Some(&self.velocity[index])
            } else {
                None
            }
        } else {
            None
        }
    }

    fn store(&mut self, index: usize, which: usize, value: Matrix) -> (done: bool) {
        if index >= self.momentum.len() || which >= 2 {
            return false;
        }
        let held: (usize, usize) = self.momentum[index].shape();
        let given: (usize, usize) = value.shape();
        if held.0 != given.0 || held.1 != given.1 {
            return false;
        }
        if which == MOMENTUM {
            self.momentum.set(index, value);
        } else {
            self.velocity.set(index, value);
        }
        proof {
            assert(self.shapes() =~= old(self).shapes());
            let expected: Seq<Seq<Grid>> = old(self).buffers().update(
                index as int,
                old(self).buffers()[index as int].update(which as int, value@),
            );
            assert forall|i: int| 0 <= i < expected.len() implies self.buffers()[i]
                == #[trigger] expected[i] by {
                assert(self.buffers()[i] =~= expected[i]);
            }
            assert(self.buffers() =~= expected);
        }
        true
    }
}

} // verus!
