//! The course of one training run, as a state machine.
//!
//! A run is a sequence of epochs, an epoch a sequence of equally sized
//! batches. The caller owns the loop and the arithmetic: it asks
//! [`Training::rate_rule`] how the learning rate moves at the start of an
//! epoch, takes batch after batch from [`Training::next_batch`], and reports
//! what the epoch measured to [`Training::finish_epoch`], which answers
//! whether to log, whether to shrink the rate, and whether the run is over.

use crate::nn::{NNOptions, StopCondition};
use crate::scalar::{at_most, below, is_zero, lt, zero, LARGEST};
use vstd::prelude::*;

verus! {

/// Why a run cannot begin.
#[derive(Clone, Copy, Debug, PartialEq, Eq, Structural)]
pub enum TrainError {
    /// The batch size is zero.
    ZeroBatchSize,
    /// The batch size does not divide the number of samples.
    UnevenBatches,
    /// The log cadence is zero epochs.
    ZeroLogInterval,
}

/// Where a run stands.
#[derive(Clone, Copy, Debug, PartialEq, Eq, Structural)]
pub enum Phase {
    /// The rate is still ramping up to the base rate.
    Warmup,
    /// The rate follows the decay rule and the patience rule.
    Steady,
    /// The stopping condition was met; nothing more happens.
    Terminated,
}

/// How the learning rate is set at the start of an epoch.
#[derive(Clone, Copy, Debug, PartialEq, Eq, Structural)]
pub enum RateRule {
    /// The base rate times `numerator / denominator`.
    Warmup { numerator: usize, denominator: usize },
    /// The current rate divided by `1 + decay_rate * epoch`.
    Decay { epoch: usize },
    /// The current rate, unchanged.
    Keep,
}

/// One batch: the columns `start..end` of the training set, and the global
/// step counter to hand to the optimizer.
#[derive(Clone, Copy, Debug, PartialEq, Eq, Structural)]
pub struct Batch {
    pub start: usize,
    pub end: usize,
    pub step: usize,
}

/// What an epoch measured.
#[derive(Clone, Copy, Debug, PartialEq, Eq, Structural)]
pub struct EpochOutcome {
    /// The epoch's loss, weight penalty included.
    pub loss: u32,
    /// Nanoseconds since the run began.
    pub elapsed: u128,
    /// The latest accuracy on the held-out set.
    pub test_accuracy: u32,
}

/// What follows from an epoch.
#[derive(Clone, Copy, Debug, PartialEq, Eq, Structural)]
pub struct EpochVerdict {
    /// Emit the epoch's log record.
    pub log: bool,
    /// The run is over.
    pub stop: bool,
    /// Multiply the learning rate by the reduction factor.
    pub reduce_rate: bool,
}

/// The state of a run.
#[derive(Clone, Copy, Debug)]
pub struct Training {
    /// The knobs of the run; they never change while it lasts.
    pub options: NNOptions,
    /// The number of columns of the training set.
    pub num_samples: usize,
    /// The epoch under way; on a finished run, the epoch that ended it.
    pub epoch: usize,
    /// The number of batches handed out since the run began.
    pub step: usize,
    /// The first column of the next batch of the epoch under way.
    pub cursor: usize,
    /// The lowest loss seen by the patience rule.
    pub best_loss: u32,
    /// The consecutive epochs that did not improve on `best_loss`.
    pub epochs_waited: usize,
    /// Whether the stopping condition was met.
    pub terminated: bool,
}

/// The state in which a run over `num_samples` columns begins.
pub open spec fn initial(options: NNOptions, num_samples: usize) -> Training {
    Training {
        options,
        num_samples,
        epoch: 0,
        step: 0,
        cursor: 0,
        best_loss: LARGEST,
        epochs_waited: 0,
        terminated: false,
    }
}

/// Whether a run can begin, and why not.
pub open spec fn refusal(options: NNOptions, num_samples: usize) -> Option<TrainError> {
    if options.batch_size == 0 {
        Some(TrainError::ZeroBatchSize)
    } else if num_samples % options.batch_size != 0 {
        Some(TrainError::UnevenBatches)
    } else if options.log_interval == Some(0usize) {
        Some(TrainError::ZeroLogInterval)
    } else {
        None
    }
}

/// `waited + 1`, held at the largest `usize`.
pub open spec fn one_more(waited: usize) -> usize {
    if waited < usize::MAX {
        (waited + 1) as usize
    } else {
        waited
    }
}

impl Training {
    /// The batches tile the training set, and the cursor stands on a batch
    /// boundary.
    pub open spec fn wf(self) -> bool {
        &&& refusal(self.options, self.num_samples) is None
        &&& self.cursor <= self.num_samples
        &&& self.cursor % self.options.batch_size == 0
    }

    /// Where the run stands.
    pub open spec fn phase(self) -> Phase {
        if self.terminated {
            Phase::Terminated
        } else if self.in_warmup() {
            Phase::Warmup
        } else {
            Phase::Steady
        }
    }

    /// Whether the epoch under way is one of the first `warmup_time` epochs.
    pub open spec fn in_warmup(self) -> bool {
        self.options.warmup_time matches Some(w) && self.epoch < w
    }

    /// The rule for the rate at the start of the epoch under way.
    pub open spec fn rate_rule_spec(self) -> RateRule {
        if self.terminated {
            RateRule::Keep
        } else if self.in_warmup() {
            RateRule::Warmup {
                numerator: (self.epoch + 1) as usize,
                denominator: self.options.warmup_time->0,
            }
        } else if !zero(self.options.decay_rate) {
            RateRule::Decay { epoch: self.epoch }
        } else {
            RateRule::Keep
        }
    }

    /// Whether a log record is due at the end of the epoch under way.
    pub open spec fn log_due(self) -> bool {
        self.options.log_interval matches Some(every) && every > 0 && self.epoch % every == 0
    }

    /// Whether the stopping condition holds of what the epoch measured.
    pub open spec fn stop_due(self, outcome: EpochOutcome) -> bool {
        self.options.stop_condition.met(
            outcome.loss,
            self.epoch,
            outcome.elapsed,
            outcome.test_accuracy,
        )
    }

    /// Whether the epoch's loss improves on the best one seen.
    pub open spec fn improves(self, outcome: EpochOutcome) -> bool {
        below(outcome.loss, self.best_loss)
    }

    /// The stale epochs counted once this epoch is taken in.
    pub open spec fn waited_after(self, outcome: EpochOutcome) -> usize {
        if self.improves(outcome) {
            0
        } else {
            one_more(self.epochs_waited)
        }
    }

    /// What follows from the epoch under way, given what it measured.
    pub open spec fn verdict(self, outcome: EpochOutcome) -> EpochVerdict {
        if self.terminated {
            EpochVerdict { log: false, stop: true, reduce_rate: false }
        } else {
            EpochVerdict {
                log: self.log_due(),
                stop: self.stop_due(outcome),
                reduce_rate: !self.stop_due(outcome) && (self.options.patience matches Some(p)
                    && self.waited_after(outcome) >= p),
            }
        }
    }

    /// The state after the epoch under way, given what it measured. A
    /// finished run stays as it is.
    pub open spec fn after_epoch(self, outcome: EpochOutcome) -> Training {
        if self.terminated {
            self
        } else if self.stop_due(outcome) {
            Training { terminated: true, cursor: 0, ..self }
        } else if self.options.patience is Some {
            Training {
                epoch: (self.epoch + 1) as usize,
                cursor: 0,
                best_loss: if self.improves(outcome) {
                    outcome.loss
                } else {
                    self.best_loss
                },
                epochs_waited: self.waited_after(outcome),
                ..self
            }
        } else {
            Training { epoch: (self.epoch + 1) as usize, cursor: 0, ..self }
        }
    }

    /// The state after a whole sequence of epochs.
    pub open spec fn after_epochs(self, outcomes: Seq<EpochOutcome>) -> Training
        decreases outcomes.len(),
    {
        if outcomes.len() == 0 {
            self
        } else {
            self.after_epochs(outcomes.drop_last()).after_epoch(outcomes.last())
        }
    }

    /// Begins a run over a training set of `num_samples` columns. The batch
    /// size must be positive and divide `num_samples`, and a log cadence, if
    /// there is one, must be positive; the first of these that fails is the
    /// error.
    pub fn start(options: NNOptions, num_samples: usize) -> (r: Result<Training, TrainError>)
        ensures
            match r {
                Ok(t) => refusal(options, num_samples) is None && t == initial(
                    options,
                    num_samples,
                ) && t.wf(),
                Err(e) => refusal(options, num_samples) == Some(e),
            },
    {
        if options.batch_size == 0 {
            return Err(TrainError::ZeroBatchSize);
        }
        if num_samples % options.batch_size != 0 {
            return Err(TrainError::UnevenBatches);
        }
        match options.log_interval {
            Some(every) => {
                if every == 0 {
                    return Err(TrainError::ZeroLogInterval);
                }
            },
            None => {},
        }
        Ok(
            Training {
                options,
                num_samples,
                epoch: 0,
                step: 0,
                cursor: 0,
                best_loss: LARGEST,
                epochs_waited: 0,
                terminated: false,
            },
        )
    }

    /// Tells whether the state is well formed.
    pub fn check(&self) -> (ok: bool)
        ensures
            ok == self.wf(),
    {
        if self.options.batch_size == 0 {
            return false;
        }
        if self.num_samples % self.options.batch_size != 0 {
            return false;
        }
        match self.options.log_interval {
            Some(every) => {
                if every == 0 {
                    return false;
                }
            },
            None => {},
        }
        self.cursor <= self.num_samples && self.cursor % self.options.batch_size == 0
    }

    /// Tells where the run stands.
    pub fn current_phase(&self) -> (p: Phase)
        ensures
            p == self.phase(),
    {
        if self.terminated {
            return Phase::Terminated;
        }
        match self.options.warmup_time {
            Some(w) => {
                if self.epoch < w {
                    Phase::Warmup
                } else {
                    Phase::Steady
                }
            },
            None => Phase::Steady,
        }
    }

    /// Tells how to set the learning rate at the start of the epoch under
    /// way: a growing fraction of the base rate while warming up, the decay
    /// rule after that if a decay rate is set, and no change otherwise.
    pub fn rate_rule(&self) -> (rule: RateRule)
        requires
            self.epoch < usize::MAX,
        ensures
            rule == self.rate_rule_spec(),
    {
        if self.terminated {
            return RateRule::Keep;
        }
        match self.options.warmup_time {
            Some(w) => {
                if self.epoch < w {
                    return RateRule::Warmup { numerator: self.epoch + 1, denominator: w };
                }
            },
            None => {},
        }
        if !is_zero(self.options.decay_rate) {
            RateRule::Decay { epoch: self.epoch }
        } else {
            RateRule::Keep
        }
    }

    /// The number of batches in an epoch.
    pub fn batches_per_epoch(&self) -> (n: usize)
        requires
            self.wf(),
        ensures
            n * self.options.batch_size == self.num_samples,
    {
        let n: usize = self.num_samples / self.options.batch_size;
        proof {
            vstd::arithmetic::div_mod::lemma_fundamental_div_mod(
                self.num_samples as int,
                self.options.batch_size as int,
            );
            assert(n * self.options.batch_size == self.options.batch_size * n) by (nonlinear_arith);
        }
        n
    }

    /// Hands out the next batch of the epoch under way and counts it, or
    /// `None` once the epoch's batches are used up or the run is over.
    pub fn next_batch(&mut self) -> (b: Option<Batch>)
        requires
            old(self).wf(),
            old(self).step < usize::MAX,
        ensures
            final(self).wf(),
            old(self).terminated || old(self).cursor == old(self).num_samples ==> b is None
                && *final(self) == *old(self),
            !old(self).terminated && old(self).cursor < old(self).num_samples ==> b == Some(
                Batch {
                    start: old(self).cursor,
                    end: (old(self).cursor + old(self).options.batch_size) as usize,
                    step: old(self).step,
                },
            ) && *final(self) == (Training {
                cursor: (old(self).cursor + old(self).options.batch_size) as usize,
                step: (old(self).step + 1) as usize,
                ..*old(self)
            }) && final(self).cursor <= old(self).num_samples,
    {
        if self.terminated || self.cursor >= self.num_samples {
            return None;
        }
        let size: usize = self.options.batch_size;
        proof {
            lemma_next_boundary(self.cursor as int, self.num_samples as int, size as int);
        }
        let batch = Batch { start: self.cursor, end: self.cursor + size, step: self.step };
        self.cursor = self.cursor + size;
        self.step = self.step + 1;
        Some(batch)
    }

    /// Takes in what the epoch under way measured. The stopping condition is
    /// looked at first: if it holds the run is over and the epoch counter
    /// stays. Otherwise the patience rule, if one is set, counts the epoch as
    /// an improvement or as stale, and the next epoch begins.
    pub fn finish_epoch(&mut self, outcome: EpochOutcome) -> (v: EpochVerdict)
        requires
            old(self).wf(),
            old(self).terminated || old(self).epoch < usize::MAX,
        ensures
            v == old(self).verdict(outcome),
            *final(self) == old(self).after_epoch(outcome),
            final(self).wf(),
    {
        if self.terminated {
            return EpochVerdict { log: false, stop: true, reduce_rate: false };
        }
        let log: bool = match self.options.log_interval {
            Some(every) => every > 0 && self.epoch % every == 0,
            None => false,
        };
        let stop: bool = self.options.stop_condition.must_stop(
            outcome.loss,
            self.epoch,
            outcome.elapsed,
            outcome.test_accuracy,
        );
        if stop {
            self.terminated = true;
            self.cursor = 0;
            proof {
                vstd::arithmetic::div_mod::lemma_small_mod(0, self.options.batch_size as nat);
            }
            return EpochVerdict { log, stop: true, reduce_rate: false };
        }
        let mut reduce_rate: bool = false;
        match self.options.patience {
            Some(p) => {
                if lt(outcome.loss, self.best_loss) {
                    self.best_loss = outcome.loss;
                    self.epochs_waited = 0;
                } else if self.epochs_waited < usize::MAX {
                    self.epochs_waited = self.epochs_waited + 1;
                }
                reduce_rate = self.epochs_waited >= p;
            },
            None => {},
        }
        self.epoch = self.epoch + 1;
        self.cursor = 0;
        proof {
            vstd::arithmetic::div_mod::lemma_small_mod(0, self.options.batch_size as nat);
        }
        EpochVerdict { log, stop: false, reduce_rate }
    }
}

/// A batch boundary short of the end leaves room for one whole batch.
proof fn lemma_next_boundary(cursor: int, total: int, size: int)
    requires
        size > 0,
        0 <= cursor < total,
        cursor % size == 0,
        total % size == 0,
    ensures
        cursor + size <= total,
        (cursor + size) % size == 0,
{
    vstd::arithmetic::div_mod::lemma_fundamental_div_mod(cursor, size);
    vstd::arithmetic::div_mod::lemma_fundamental_div_mod(total, size);
    let a: int = cursor / size;
    let b: int = total / size;
    assert(cursor == size * a);
    assert(total == size * b);
    assert(a < b) by (nonlinear_arith)
        requires
            size * a < size * b,
            size > 0,
    ;
    assert(size * (a + 1) <= size * b) by (nonlinear_arith)
        requires
            a + 1 <= b,
            size > 0,
    ;
    assert(size * (a + 1) == cursor + size) by (nonlinear_arith)
        requires
            cursor == size * a,
    ;
    vstd::arithmetic::div_mod::lemma_mod_multiples_basic(a + 1, size);
    assert((a + 1) * size == size * (a + 1)) by (nonlinear_arith);
}

/// How far along a phase is: warming up comes first, the steady phase next,
/// the end last.
pub open spec fn phase_order(p: Phase) -> nat {
    match p {
        Phase::Warmup => 0,
        Phase::Steady => 1,
        Phase::Terminated => 2,
    }
}

/// A run only moves forward: no epoch takes it from the steady phase back to
/// warming up, and nothing takes it out of the end.
pub proof fn lemma_phases_move_forward(t: Training, outcome: EpochOutcome)
    requires
        t.terminated || t.epoch < usize::MAX,
    ensures
        phase_order(t.phase()) <= phase_order(t.after_epoch(outcome).phase()),
        t.terminated ==> t.after_epoch(outcome) == t,
{
}

/// A run that stops at a target epoch ends at exactly that epoch, whatever
/// the epochs measure: after `k` epochs it is still going while `k` is at most
/// the target, and from then on it is over with the counter at the target.
pub proof fn lemma_epoch_target_ends_run(
    options: NNOptions,
    num_samples: usize,
    target: usize,
    outcomes: Seq<EpochOutcome>,
)
    requires
        options.stop_condition == StopCondition::Epoch(target),
    ensures
        ({
            let end = initial(options, num_samples).after_epochs(outcomes);
            &&& outcomes.len() <= target ==> !end.terminated && end.epoch == outcomes.len()
            &&& outcomes.len() > target ==> end.terminated && end.epoch == target
        }),
    decreases outcomes.len(),
{
    if outcomes.len() > 0 {
        lemma_epoch_target_ends_run(options, num_samples, target, outcomes.drop_last());
        lemma_options_kept(initial(options, num_samples), outcomes.drop_last());
    }
}

/// The least epoch whose loss is at most `ceiling`, or the number of epochs
/// if there is none.
pub open spec fn first_reaching(outcomes: Seq<EpochOutcome>, ceiling: u32) -> int
    decreases outcomes.len(),
{
    if outcomes.len() == 0 {
        0
    } else {
        let before: int = first_reaching(outcomes.drop_last(), ceiling);
        if before < outcomes.len() - 1 {
            before
        } else if at_most(outcomes.last().loss, ceiling) {
            outcomes.len() - 1
        } else {
            outcomes.len() as int
        }
    }
}

/// `first_reaching` is what its name says: no earlier epoch reaches the
/// ceiling, and the epoch it names does, if it names one.
pub proof fn lemma_first_reaching(outcomes: Seq<EpochOutcome>, ceiling: u32)
    ensures
        0 <= first_reaching(outcomes, ceiling) <= outcomes.len(),
        forall|k: int|
            0 <= k < first_reaching(outcomes, ceiling) ==> !at_most(
                (#[trigger] outcomes[k]).loss,
                ceiling,
            ),
        first_reaching(outcomes, ceiling) < outcomes.len() ==> at_most(
            outcomes[first_reaching(outcomes, ceiling)].loss,
            ceiling,
        ),
    decreases outcomes.len(),
{
    if outcomes.len() > 0 {
        lemma_first_reaching(outcomes.drop_last(), ceiling);
        assert forall|k: int| 0 <= k < first_reaching(outcomes, ceiling) implies !at_most(
            (#[trigger] outcomes[k]).loss,
            ceiling,
        ) by {
            if k < outcomes.len() - 1 {
                assert(outcomes.drop_last()[k] == outcomes[k]);
            }
        }
        if first_reaching(outcomes, ceiling) < outcomes.len() - 1 {
            let f: int = first_reaching(outcomes, ceiling);
            assert(outcomes.drop_last()[f] == outcomes[f]);
        }
    }
}

/// A run that stops at a loss ceiling ends at the first epoch whose loss is at
/// most the ceiling and never earlier: it is over exactly when some epoch so
/// far reached the ceiling, and then the counter stands at the first such
/// epoch.
pub proof fn lemma_loss_ceiling_ends_run(
    options: NNOptions,
    num_samples: usize,
    ceiling: u32,
    outcomes: Seq<EpochOutcome>,
)
    requires
        options.stop_condition == StopCondition::Loss(ceiling),
        outcomes.len() <= usize::MAX,
    ensures
        ({
            let end = initial(options, num_samples).after_epochs(outcomes);
            let first = first_reaching(outcomes, ceiling);
            &&& end.terminated <==> first < outcomes.len()
            &&& end.epoch == first
        }),
    decreases outcomes.len(),
{
    if outcomes.len() > 0 {
        lemma_loss_ceiling_ends_run(options, num_samples, ceiling, outcomes.drop_last());
        lemma_options_kept(initial(options, num_samples), outcomes.drop_last());
        lemma_first_reaching(outcomes.drop_last(), ceiling);
    }
}

/// The knobs and the size of the training set never change during a run.
pub proof fn lemma_options_kept(start: Training, outcomes: Seq<EpochOutcome>)
    ensures
        start.after_epochs(outcomes).options == start.options,
        start.after_epochs(outcomes).num_samples == start.num_samples,
    decreases outcomes.len(),
{
    if outcomes.len() > 0 {
        lemma_options_kept(start, outcomes.drop_last());
    }
}

} // verus!
