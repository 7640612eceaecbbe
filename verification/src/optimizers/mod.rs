//! Optimizers: what each keeps per parameter tensor.
//!
//! An optimizer hands out one handle per parameter tensor and keeps, under
//! that handle, the auxiliary buffers its update rule needs, each of the
//! tensor's shape. The rule itself is arithmetic and belongs to the caller,
//! who reads the buffers, computes, and stores the new ones.

pub mod adam_optimizer;
pub mod default_optimizer;

use crate::matrix::{Grid, Matrix};
use crate::text::same_bytes;
use adam_optimizer::AdamOptimizer;
use default_optimizer::DefaultOptimizer;
use vstd::prelude::*;
use vstd::string::StringSliceAdditionalSpecFns;

verus! {

/// Which update rule an optimizer follows.
#[derive(Clone, Copy, Debug, PartialEq, Eq, Structural)]
pub enum OptimizerType {
    /// Moving averages of the gradient and of its square.
    Adam,
    /// Plain gradient descent.
    Default,
}

impl Default for OptimizerType {
    fn default() -> (r: OptimizerType)
        ensures
            r == OptimizerType::Default,
    {
        OptimizerType::Default
    }
}

impl OptimizerType {
    /// The name a rule is saved under, as bytes.
    pub open spec fn name(self) -> Seq<u8> {
        match self {
            OptimizerType::Adam => "adam".spec_bytes(),
            OptimizerType::Default => "default".spec_bytes(),
        }
    }

    /// The rule saved under a name: `adam` is Adam, every other name is plain
    /// gradient descent.
    pub open spec fn named(text: Seq<u8>) -> OptimizerType {
        if text == OptimizerType::Adam.name() {
            OptimizerType::Adam
        } else {
            OptimizerType::Default
        }
    }

    /// The name a rule is saved under.
    pub fn tag(&self) -> (s: &'static str)
        ensures
            s.spec_bytes() == self.name(),
    {
        match self {
            OptimizerType::Adam => "adam",
            OptimizerType::Default => "default",
        }
    }

    /// Reads a rule from its name.
    pub fn from_bytes(text: &[u8]) -> (r: OptimizerType)
        ensures
            r == OptimizerType::named(text@),
    {
        if same_bytes(text, "adam".as_bytes()) {
            OptimizerType::Adam
        } else {
            OptimizerType::Default
        }
    }

    /// A fresh optimizer of this kind, with nothing registered.
    pub fn optimizer(&self) -> (o: AnyOptimizer)
        ensures
            o.wf(),
            o.rule() == *self,
            o.shapes().len() == 0,
            o.buffers().len() == 0,
            o.per_slot() == (if *self == OptimizerType::Adam {
                2nat
            } else {
                0nat
            }),
    {
        match self {
            OptimizerType::Adam => AnyOptimizer::Adam(AdamOptimizer::new()),
            OptimizerType::Default => AnyOptimizer::Default(DefaultOptimizer::new()),
        }
    }
}

/// The bytes of the two names, written out.
pub proof fn lemma_names()
    ensures
        OptimizerType::Adam.name() == seq![97u8, 100, 97, 109],
        OptimizerType::Default.name() == seq![100u8, 101, 102, 97, 117, 108, 116],
{
    reveal_strlit("adam");
    reveal_strlit("default");
    vstd::string::is_ascii_spec_bytes("adam");
    vstd::string::is_ascii_spec_bytes("default");
    assert("adam"@ =~= seq!['a', 'd', 'a', 'm']);
    assert("default"@ =~= seq!['d', 'e', 'f', 'a', 'u', 'l', 't']);
    assert(vstd::string::is_ascii("adam"));
    assert(vstd::string::is_ascii("default"));
    assert("adam".spec_bytes() =~= seq![97u8, 100, 97, 109]);
    assert("default".spec_bytes() =~= seq![100u8, 101, 102, 97, 117, 108, 116]);
}

/// Every rule is read back from its own name.
pub proof fn lemma_name_round_trip(t: OptimizerType)
    ensures
        OptimizerType::named(t.name()) == t,
{
    lemma_names();
    let adam: Seq<u8> = seq![97u8, 100, 97, 109];
    let plain: Seq<u8> = seq![100u8, 101, 102, 97, 117, 108, 116];
    assert(adam.len() == 4 && plain.len() == 7);
}

/// The buffers a fresh handle gets: `count` of them, all zero, of the
/// registered shape.
pub open spec fn fresh_buffers(count: nat, shape: (nat, nat)) -> Seq<Grid> {
    Seq::new(count, |k: int| Grid::zeros(shape.0, shape.1))
}

/// The handle that the next registration returns.
pub open spec fn next_handle(shapes: Seq<(nat, nat)>) -> nat {
    shapes.len()
}

/// The handles returned when the tensors of shapes `more` are registered one
/// after another with an optimizer that already holds `shapes`.
pub open spec fn handles_after(shapes: Seq<(nat, nat)>, more: Seq<(nat, nat)>) -> Seq<nat>
    decreases more.len(),
{
    if more.len() == 0 {
        Seq::empty()
    } else {
        handles_after(shapes, more.drop_last()).push(next_handle(shapes + more.drop_last()))
    }
}

/// An update rule's state: one slot per registered parameter tensor.
pub trait Optimizer {
    /// The shape registered under each handle, in the order of registration.
    spec fn shapes(&self) -> Seq<(nat, nat)>;

    /// The auxiliary buffers kept under each handle.
    spec fn buffers(&self) -> Seq<Seq<Grid>>;

    /// The number of buffers the rule keeps per handle.
    spec fn per_slot(&self) -> nat;

    /// The rule that the optimizer follows.
    spec fn rule(&self) -> OptimizerType;

    /// Every handle has its buffers, each of the registered shape.
    spec fn wf(&self) -> bool;

    /// Tells whether the optimizer is well formed.
    fn check(&self) -> (ok: bool)
        ensures
            ok == self.wf(),
    ;

    /// Tells which rule the optimizer follows.
    fn kind(&self) -> (k: OptimizerType)
        ensures
            k == self.rule(),
    ;

    /// Registers a parameter tensor of the given shape and returns its
    /// handle: the number of tensors registered before. The new slot's
    /// buffers are zero; no other slot changes.
    fn add_variables(&mut self, shape: (usize, usize)) -> (index: usize)
        requires
            old(self).wf(),
            shape.0 * shape.1 <= usize::MAX,
        ensures
            final(self).wf(),
            index == next_handle(old(self).shapes()),
            final(self).shapes() == old(self).shapes().push((shape.0 as nat, shape.1 as nat)),
            final(self).buffers() == old(self).buffers().push(
                fresh_buffers(old(self).per_slot(), (shape.0 as nat, shape.1 as nat)),
            ),
            final(self).per_slot() == old(self).per_slot(),
            final(self).rule() == old(self).rule(),
    ;

    /// Tells whether `index` is the handle of a tensor of the given shape.
    fn accepts(&self, index: usize, shape: (usize, usize)) -> (ok: bool)
        requires
            self.wf(),
        ensures
            ok == (index < self.shapes().len() && self.shapes()[index as int] == (
                shape.0 as nat,
                shape.1 as nat,
            )),
    ;

    /// Tells how many buffers the rule keeps per handle.
    fn buffers_per_slot(&self) -> (n: usize)
        requires
            self.wf(),
        ensures
            n == self.per_slot(),
    ;

    /// The buffer number `which` under the handle `index`, or `None` if
    /// there is no such handle or no such buffer.
    fn buffer(&self, index: usize, which: usize) -> (b: Option<&Matrix>)
        requires
            self.wf(),
        ensures
            b is Some <==> index < self.shapes().len() && which < self.per_slot(),
            b matches Some(m) ==> m@ == self.buffers()[index as int][which as int],
    ;

    /// Puts `value` in place of buffer number `which` under the handle
    /// `index`. Returns false, and changes nothing, unless that buffer exists
    /// and `value` has the registered shape. The buffers of every other
    /// handle, and the other buffers of this one, stay as they are.
    fn store(&mut self, index: usize, which: usize, value: Matrix) -> (done: bool)
        requires
            old(self).wf(),
        ensures
            final(self).wf(),
            done <==> index < old(self).shapes().len() && which < old(self).per_slot()
                && value@.shape() == old(self).shapes()[index as int] && value@.wf(),
            final(self).shapes() == old(self).shapes(),
            final(self).per_slot() == old(self).per_slot(),
            final(self).rule() == old(self).rule(),
            done ==> final(self).buffers() == old(self).buffers().update(
                index as int,
                old(self).buffers()[index as int].update(which as int, value@),
            ),
            !done ==> final(self).buffers() == old(self).buffers(),
    ;
}

/// One of the optimizers of this crate, chosen while the program runs.
pub enum AnyOptimizer {
    Adam(AdamOptimizer),
    Default(DefaultOptimizer),
}

impl Optimizer for AnyOptimizer {
    open spec fn shapes(&self) -> Seq<(nat, nat)> {
        match self {
            AnyOptimizer::Adam(o) => o.shapes(),
            AnyOptimizer::Default(o) => o.shapes(),
        }
    }

    open spec fn buffers(&self) -> Seq<Seq<Grid>> {
        match self {
            AnyOptimizer::Adam(o) => o.buffers(),
            AnyOptimizer::Default(o) => o.buffers(),
        }
    }

    open spec fn per_slot(&self) -> nat {
        match self {
            AnyOptimizer::Adam(o) => o.per_slot(),
            AnyOptimizer::Default(o) => o.per_slot(),
        }
    }

    open spec fn rule(&self) -> OptimizerType {
        match self {
            AnyOptimizer::Adam(o) => o.rule(),
            AnyOptimizer::Default(o) => o.rule(),
        }
    }

    open spec fn wf(&self) -> bool {
        match self {
            AnyOptimizer::Adam(o) => o.wf(),
            AnyOptimizer::Default(o) => o.wf(),
        }
    }

    fn check(&self) -> (ok: bool) {
        match self {
            AnyOptimizer::Adam(o) => o.check(),
            AnyOptimizer::Default(o) => o.check(),
        }
    }

    fn kind(&self) -> (k: OptimizerType) {
        match self {
            AnyOptimizer::Adam(o) => o.kind(),
            AnyOptimizer::Default(o) => o.kind(),
        }
    }

    fn add_variables(&mut self, shape: (usize, usize)) -> (index: usize) {
        match self {
            AnyOptimizer::Adam(o) => o.add_variables(shape),
            AnyOptimizer::Default(o) => o.add_variables(shape),
        }
    }

    fn accepts(&self, index: usize, shape: (usize, usize)) -> (ok: bool) {
        match self {
            AnyOptimizer::Adam(o) => o.accepts(index, shape),
            AnyOptimizer::Default(o) => o.accepts(index, shape),
        }
    }

    fn buffers_per_slot(&self) -> (n: usize) {
        match self {
            AnyOptimizer::Adam(o) => o.buffers_per_slot(),
            AnyOptimizer::Default(o) => o.buffers_per_slot(),
        }
    }

    fn buffer(&self, index: usize, which: usize) -> (b: Option<&Matrix>) {
        match self {
            AnyOptimizer::Adam(o) => o.buffer(index, which),
            AnyOptimizer::Default(o) => o.buffer(index, which),
        }
    }

    fn store(&mut self, index: usize, which: usize, value: Matrix) -> (done: bool) {
        match self {
            AnyOptimizer::Adam(o) => o.store(index, which, value),
            AnyOptimizer::Default(o) => o.store(index, which, value),
        }
    }
}

/// Registering tensors one after another yields as many handles as tensors,
/// no two of them equal: the `k`-th is the number of tensors held before it.
pub proof fn lemma_handles_distinct(shapes: Seq<(nat, nat)>, more: Seq<(nat, nat)>)
    ensures
        handles_after(shapes, more).len() == more.len(),
        forall|k: int|
            0 <= k < more.len() ==> #[trigger] handles_after(shapes, more)[k] == shapes.len() + k,
        forall|i: int, j: int|
            0 <= i < more.len() && 0 <= j < more.len() && i != j ==> handles_after(shapes, more)[i]
                != handles_after(shapes, more)[j],
    decreases more.len(),
{
    if more.len() > 0 {
        lemma_handles_distinct(shapes, more.drop_last());
    }
}

/// Storing under one handle never touches what is kept under another: the
/// buffers after the store are the buffers before it at every other handle.
pub proof fn lemma_store_is_local(
    before: Seq<Seq<Grid>>,
    index: int,
    which: int,
    value: Grid,
    other: int,
)
    requires
        0 <= index < before.len(),
        0 <= other < before.len(),
        other != index,
    ensures
        before.update(index, before[index].update(which, value))[other] == before[other],
{
}

} // verus!
