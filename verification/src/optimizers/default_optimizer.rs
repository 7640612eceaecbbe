//! Plain gradient descent: a handle per tensor, and nothing kept under it.

use crate::matrix::{Grid, Matrix};
use crate::optimizers::{fresh_buffers, Optimizer, OptimizerType};
use vstd::prelude::*;

verus! {

/// The state of plain gradient descent: the shapes it was told of.
#[derive(Debug)]
pub struct DefaultOptimizer {
    pub registered: Vec<(usize, usize)>,
}

impl DefaultOptimizer {
    /// An optimizer with nothing registered.
    pub fn new() -> (o: DefaultOptimizer)
        ensures
            o.wf(),
            o.shapes().len() == 0,
            o.buffers().len() == 0,
            o.rule() == OptimizerType::Default,
    {
        DefaultOptimizer { registered: Vec::new() }
    }

    /// An optimizer with nothing registered, in a box.
    pub fn boxed() -> (o: Box<DefaultOptimizer>)
        ensures
            o.wf(),
            o.shapes().len() == 0,
            o.buffers().len() == 0,
            o.rule() == OptimizerType::Default,
    {
        Box::new(DefaultOptimizer::new())
    }
}

impl Default for DefaultOptimizer {
    fn default() -> (o: DefaultOptimizer)
        ensures
            o.wf(),
            o.shapes().len() == 0,
            o.buffers().len() == 0,
    {
        DefaultOptimizer::new()
    }
}

impl Optimizer for DefaultOptimizer {
    open spec fn shapes(&self) -> Seq<(nat, nat)> {
        Seq::new(
            self.registered@.len(),
            |i: int| (self.registered@[i].0 as nat, self.registered@[i].1 as nat),
        )
    }

    open spec fn buffers(&self) -> Seq<Seq<Grid>> {
        Seq::new(self.registered@.len(), |i: int| Seq::<Grid>::empty())
    }

    open spec fn per_slot(&self) -> nat {
        0
    }

    open spec fn rule(&self) -> OptimizerType {
        OptimizerType::Default
    }

    open spec fn wf(&self) -> bool {
        true
    }

    fn check(&self) -> (ok: bool) {
        true
    }

    fn kind(&self) -> (k: OptimizerType) {
        OptimizerType::Default
    }

    fn add_variables(&mut self, shape: (usize, usize)) -> (index: usize) {
        let index: usize = self.registered.len();
        self.registered.push(shape);
        proof {
            assert(self.shapes() =~= old(self).shapes().push((shape.0 as nat, shape.1 as nat)));
            assert(fresh_buffers(0, (shape.0 as nat, shape.1 as nat)) =~= Seq::<Grid>::empty());
            assert(self.buffers() =~= old(self).buffers().push(
                fresh_buffers(0, (shape.0 as nat, shape.1 as nat)),
            ));
        }
        index
    }

    fn accepts(&self, index: usize, shape: (usize, usize)) -> (ok: bool) {
        if index < self.registered.len() {
            let held: (usize, usize) = self.registered[index];
            held.0 == shape.0 && held.1 == shape.1
        } else {
            false
        }
    }

    fn buffers_per_slot(&self) -> (n: usize) {
        0
    }

    fn buffer(&self, index: usize, which: usize) -> (b: Option<&Matrix>) {
        None
    }

    fn store(&mut self, index: usize, which: usize, value: Matrix) -> (done: bool) {
        false
    }
}

} // verus!
