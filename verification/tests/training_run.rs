use jabba::nn::{NNOptions, StopCondition};
use jabba::training::{
    Batch, EpochOutcome, EpochVerdict, Phase, RateRule, TrainError, Training,
};

fn outcome(loss: f32) -> EpochOutcome {
    EpochOutcome { loss: loss.to_bits(), elapsed: 0, test_accuracy: 0.0f32.to_bits() }
}

fn options(stop: StopCondition) -> NNOptions {
    NNOptions { stop_condition: stop, ..NNOptions::default() }
}

/// Runs epochs with the given losses until the run is over, and returns the
/// epoch that ended it, if one did.
fn run(mut training: Training, losses: &[f32]) -> (Training, Option<usize>) {
    for &loss in losses {
        while training.next_batch().is_some() {}
        let verdict = training.finish_epoch(outcome(loss));
        if verdict.stop {
            let at = training.epoch;
            return (training, Some(at));
        }
    }
    (training, None)
}

#[test]
fn start_refuses_a_zero_batch_size() {
    let o = NNOptions { batch_size: 0, ..NNOptions::default() };
    assert_eq!(Training::start(o, 4).err(), Some(TrainError::ZeroBatchSize));
}

#[test]
fn start_refuses_uneven_batches() {
    let o = NNOptions { batch_size: 3, ..NNOptions::default() };
    assert_eq!(Training::start(o, 4).err(), Some(TrainError::UnevenBatches));
    assert_eq!(Training::start(o, 0).map(|t| t.num_samples).ok(), Some(0));
    assert_eq!(Training::start(o, 6).map(|t| t.num_samples).ok(), Some(6));
}

#[test]
fn start_refuses_a_zero_log_interval() {
    let o = NNOptions { log_interval: Some(0), ..NNOptions::default() };
    assert_eq!(Training::start(o, 4).err(), Some(TrainError::ZeroLogInterval));
    let both = NNOptions { log_interval: Some(0), batch_size: 0, ..NNOptions::default() };
    assert_eq!(Training::start(both, 4).err(), Some(TrainError::ZeroBatchSize));
}

#[test]
fn a_run_begins_at_epoch_zero_with_nothing_counted() {
    let t = Training::start(NNOptions::default(), 4).unwrap();
    assert_eq!(t.epoch, 0);
    assert_eq!(t.step, 0);
    assert_eq!(t.cursor, 0);
    assert_eq!(t.epochs_waited, 0);
    assert_eq!(t.best_loss, f32::MAX.to_bits());
    assert!(!t.terminated);
    assert_eq!(t.current_phase(), Phase::Steady);
}

#[test]
fn epoch_target_halts_at_exactly_that_epoch() {
    let t = Training::start(options(StopCondition::Epoch(5)), 4).unwrap();
    let losses = [9.0, 0.0, 1.0e30, f32::NAN, 0.5, 3.0, 2.0, 1.0];
    let (end, at) = run(t, &losses);
    assert_eq!(at, Some(5));
    assert_eq!(end.epoch, 5);
    assert!(end.terminated);
    assert_eq!(end.current_phase(), Phase::Terminated);
    assert_eq!(end.step, 6 * 4);
}

#[test]
fn epoch_target_zero_halts_after_the_first_epoch() {
    let t = Training::start(options(StopCondition::Epoch(0)), 2).unwrap();
    let (end, at) = run(t, &[1.0, 1.0]);
    assert_eq!(at, Some(0));
    assert_eq!(end.step, 2);
}

#[test]
fn loss_ceiling_halts_at_the_first_epoch_that_reaches_it() {
    let t = Training::start(options(StopCondition::Loss(0.25f32.to_bits())), 4).unwrap();
    let (end, at) = run(t, &[1.0, 0.5, 0.2500001, f32::NAN, 0.25, 0.1, 0.0]);
    assert_eq!(at, Some(4));
    assert_eq!(end.epoch, 4);
    let t = Training::start(options(StopCondition::Loss(0.25f32.to_bits())), 4).unwrap();
    let (end, at) = run(t, &[1.0, 0.5, 0.3]);
    assert_eq!(at, None);
    assert_eq!(end.epoch, 3);
    assert!(!end.terminated);
}

#[test]
fn time_and_accuracy_conditions() {
    let time = StopCondition::Time(1_000_000_000);
    assert!(!time.must_stop(0, 0, 999_999_999, 0));
    assert!(time.must_stop(0, 0, 1_000_000_000, 0));
    let accuracy = StopCondition::TestAccuracy(0.98f32.to_bits());
    assert!(!accuracy.must_stop(0, 0, 0, 0.97f32.to_bits()));
    assert!(accuracy.must_stop(0, 0, 0, 0.98f32.to_bits()));
    assert!(accuracy.must_stop(0, 0, 0, 1.0f32.to_bits()));
    assert!(!accuracy.must_stop(0, 0, 0, f32::NAN.to_bits()));
    assert!(accuracy.needs_test());
    assert!(!time.needs_test());
    let loss = StopCondition::Loss(0.002f32.to_bits());
    assert!(loss.must_stop(0.002f32.to_bits(), 0, 0, 0));
    assert!(!loss.must_stop(0.0021f32.to_bits(), 0, 0, 0));
    let epoch = StopCondition::Epoch(200);
    assert!(!epoch.must_stop(0, 199, 0, 0));
    assert!(epoch.must_stop(0, 200, 0, 0));
}

#[test]
fn finished_run_stays_finished() {
    let t = Training::start(options(StopCondition::Epoch(0)), 2).unwrap();
    let (mut end, _) = run(t, &[1.0]);
    let again = end.finish_epoch(outcome(0.0));
    assert_eq!(again, EpochVerdict { log: false, stop: true, reduce_rate: false });
    assert_eq!(end.epoch, 0);
    assert_eq!(end.next_batch(), None);
    assert_eq!(end.rate_rule(), RateRule::Keep);
}

#[test]
fn batches_tile_the_training_set() {
    let o = NNOptions { batch_size: 2, ..options(StopCondition::Epoch(9)) };
    let mut t = Training::start(o, 6).unwrap();
    assert_eq!(t.batches_per_epoch(), 3);
    assert_eq!(t.next_batch(), Some(Batch { start: 0, end: 2, step: 0 }));
    assert_eq!(t.next_batch(), Some(Batch { start: 2, end: 4, step: 1 }));
    assert_eq!(t.next_batch(), Some(Batch { start: 4, end: 6, step: 2 }));
    assert_eq!(t.next_batch(), None);
    assert_eq!(t.step, 3);
    let v = t.finish_epoch(outcome(1.0));
    assert!(!v.stop);
    assert_eq!(t.epoch, 1);
    assert_eq!(t.next_batch(), Some(Batch { start: 0, end: 2, step: 3 }));
}

#[test]
fn warmup_ramps_then_steady() {
    let o = NNOptions { warmup_time: Some(3), ..options(StopCondition::Epoch(9)) };
    let mut t = Training::start(o, 1).unwrap();
    let mut rules = Vec::new();
    let mut phases = Vec::new();
    for _ in 0..5 {
        rules.push(t.rate_rule());
        phases.push(t.current_phase());
        while t.next_batch().is_some() {}
        t.finish_epoch(outcome(1.0));
    }
    assert_eq!(
        rules,
        vec![
            RateRule::Warmup { numerator: 1, denominator: 3 },
            RateRule::Warmup { numerator: 2, denominator: 3 },
            RateRule::Warmup { numerator: 3, denominator: 3 },
            RateRule::Keep,
            RateRule::Keep,
        ]
    );
    assert_eq!(
        phases,
        vec![Phase::Warmup, Phase::Warmup, Phase::Warmup, Phase::Steady, Phase::Steady]
    );
}

#[test]
fn decay_applies_after_warmup_when_a_rate_is_set() {
    let o = NNOptions {
        warmup_time: Some(1),
        decay_rate: 0.00006f32.to_bits(),
        ..options(StopCondition::Epoch(9))
    };
    let mut t = Training::start(o, 1).unwrap();
    assert_eq!(t.rate_rule(), RateRule::Warmup { numerator: 1, denominator: 1 });
    t.finish_epoch(outcome(1.0));
    assert_eq!(t.rate_rule(), RateRule::Decay { epoch: 1 });
    t.finish_epoch(outcome(1.0));
    assert_eq!(t.rate_rule(), RateRule::Decay { epoch: 2 });
    let none = NNOptions { decay_rate: (-0.0f32).to_bits(), ..options(StopCondition::Epoch(9)) };
    assert_eq!(Training::start(none, 1).unwrap().rate_rule(), RateRule::Keep);
}

#[test]
fn patience_counts_stale_epochs() {
    let o = NNOptions { patience: Some(2), ..options(StopCondition::Epoch(100)) };
    let mut t = Training::start(o, 1).unwrap();
    let losses = [1.0f32, 0.9, 0.95, 0.9, 0.8, 0.8, 0.8, 0.8];
    let mut reduced = Vec::new();
    let mut waited = Vec::new();
    for loss in losses {
        let v = t.finish_epoch(outcome(loss));
        reduced.push(v.reduce_rate);
        waited.push(t.epochs_waited);
    }
    assert_eq!(waited, vec![0, 0, 1, 2, 0, 1, 2, 3]);
    assert_eq!(reduced, vec![false, false, false, true, false, false, true, true]);
    assert_eq!(t.best_loss, 0.8f32.to_bits());
}

#[test]
fn without_patience_the_rate_is_never_reduced() {
    let mut t = Training::start(options(StopCondition::Epoch(100)), 1).unwrap();
    for _ in 0..5 {
        let v = t.finish_epoch(outcome(1.0));
        assert!(!v.reduce_rate);
    }
    assert_eq!(t.epochs_waited, 0);
    assert_eq!(t.best_loss, f32::MAX.to_bits());
}

#[test]
fn log_cadence() {
    let o = NNOptions { log_interval: Some(3), ..options(StopCondition::Epoch(100)) };
    let mut t = Training::start(o, 1).unwrap();
    let mut logged = Vec::new();
    for _ in 0..7 {
        logged.push(t.finish_epoch(outcome(1.0)).log);
    }
    assert_eq!(logged, vec![true, false, false, true, false, false, true]);
    let silent = NNOptions { log_interval: None, ..options(StopCondition::Epoch(100)) };
    let mut t = Training::start(silent, 1).unwrap();
    assert!(!t.finish_epoch(outcome(1.0)).log);
}

#[test]
fn the_stopping_epoch_is_still_logged() {
    let mut t = Training::start(options(StopCondition::Epoch(0)), 1).unwrap();
    let v = t.finish_epoch(outcome(1.0));
    assert_eq!(v, EpochVerdict { log: true, stop: true, reduce_rate: false });
}

#[test]
fn default_options() {
    let o = NNOptions::default();
    assert_eq!(o.batch_size, 1);
    assert_eq!(o.learning_rate, 0.001f32.to_bits());
    assert_eq!(o.learning_rate_factor, 0.75f32.to_bits());
    assert_eq!(o.weight_decay, 0.0001f32.to_bits());
    assert_eq!(o.decay_rate, 0.0f32.to_bits());
    assert_eq!(o.patience, None);
    assert_eq!(o.warmup_time, None);
    assert_eq!(o.log_interval, Some(1));
    assert!(o.log_batches);
    assert!(o.test);
    assert_eq!(o.stop_condition, StopCondition::Epoch(200));
}

#[test]
fn check_sees_a_broken_state() {
    let o = NNOptions { batch_size: 2, ..options(StopCondition::Epoch(9)) };
    let mut t = Training::start(o, 6).unwrap();
    assert!(t.check());
    t.next_batch();
    assert!(t.check());
    t.cursor = 3;
    assert!(!t.check());
    t.cursor = 8;
    assert!(!t.check());
    t.cursor = 6;
    assert!(t.check());
    t.num_samples = 7;
    assert!(!t.check());
    t.num_samples = 6;
    t.options.batch_size = 0;
    assert!(!t.check());
    t.options.batch_size = 2;
    t.options.log_interval = Some(0);
    assert!(!t.check());
}
