use jabba::activation::ActivationType;
use jabba::layer::Layer;
use jabba::nn::{NNBuilder, NNOptions, StopCondition, NN};
use jabba::optimizers::{AnyOptimizer, Optimizer, OptimizerType};
use jabba::training::{EpochOutcome, Training};
use jabba::Matrix;
use nalgebra::DMatrix;

type Floats = DMatrix<f32>;

fn to_floats(m: &Matrix) -> Floats {
    let (rows, cols) = m.shape();
    Floats::from_iterator(rows, cols, m.to_vec().into_iter().map(f32::from_bits))
}

fn from_floats(m: &Floats) -> Matrix {
    let bits: Vec<u32> = m.as_slice().iter().map(|x| x.to_bits()).collect();
    Matrix::from_column_slice(m.nrows(), m.ncols(), &bits).unwrap()
}

fn sigmoid(x: f32) -> f32 {
    1. / (1. + (-x).exp())
}

fn sigmoid_slope(x: f32) -> f32 {
    let s = sigmoid(x);
    s * (1. - s)
}

fn forward_step(layer: &mut Layer, data: &Floats) -> Floats {
    assert!(layer.prepare(data.shape()));
    let mut z = to_floats(&layer.weights) * data;
    let bias = to_floats(&layer.bias);
    z.column_iter_mut().for_each(|mut col| col += &bias);
    let a = z.map(sigmoid);
    assert!(layer.store(from_floats(&z), from_floats(&a)));
    a
}

fn forward(nn: &mut NN<AnyOptimizer>, data: &Floats) -> Floats {
    let mut data = data.clone();
    for l in &mut nn.layers {
        data = forward_step(l, &data);
    }
    data
}

fn backward(nn: &mut NN<AnyOptimizer>, x: &Floats, y: &Floats, predicted: &Floats, rate: f32) {
    let mut delta = predicted - y;
    for i in (0..nn.layers.len()).rev() {
        let prev_a = if i == 0 { x.clone() } else { to_floats(&nn.layers[i - 1].a) };
        let layer = &mut nn.layers[i];
        delta.component_mul_assign(&to_floats(&layer.z).map(sigmoid_slope));
        let dw = &delta * prev_a.transpose();
        let db = Floats::from_iterator(delta.nrows(), 1, delta.column_sum().iter().copied());
        let weights = to_floats(&layer.weights);
        let bias = to_floats(&layer.bias);
        let next = weights.transpose() * &delta;
        assert!(nn.optimizer.accepts(layer.weights_index, dw.shape()));
        assert!(nn.optimizer.accepts(layer.bias_index, db.shape()));
        assert!(layer.set_weights(from_floats(&(weights - rate * dw))));
        assert!(layer.set_bias(from_floats(&(bias - rate * db))));
        delta = next;
    }
}

fn loss(predicted: &Floats, y: &Floats) -> f32 {
    (predicted - y).norm_squared() / y.ncols() as f32
}

fn inputs() -> Floats {
    Floats::from_row_slice(2, 4, &[0., 1., 1., 0., 1., 0., 1., 0.])
}

fn labels() -> Floats {
    Floats::from_row_slice(1, 4, &[1., 1., 0., 0.])
}

fn network(options: NNOptions) -> NN<AnyOptimizer> {
    let mut nn = NNBuilder::new(2)
        .options(options)
        .add_layer(2, ActivationType::Sigmoid)
        .add_layer(1, ActivationType::Sigmoid)
        .optimizer(OptimizerType::Default)
        .build();
    let first = Floats::from_row_slice(2, 2, &[0.5, -0.4, 0.3, 0.6]);
    let second = Floats::from_row_slice(1, 2, &[0.7, -0.6]);
    assert!(nn.layers[0].set_weights(from_floats(&first)));
    assert!(nn.layers[1].set_weights(from_floats(&second)));
    nn
}

#[test]
fn exclusive_or_is_learned_by_plain_descent() {
    let options = NNOptions {
        batch_size: 4,
        learning_rate: 1.0f32.to_bits(),
        weight_decay: 0.0f32.to_bits(),
        log_interval: None,
        log_batches: false,
        test: false,
        stop_condition: StopCondition::Loss(0.002f32.to_bits()),
        ..NNOptions::default()
    };
    let mut nn = network(options);
    let x = inputs();
    let y = labels();
    let rate = f32::from_bits(nn.options.learning_rate);
    let mut training = Training::start(nn.options, x.ncols()).unwrap();
    let mut last = f32::MAX;
    while !training.terminated {
        assert!(training.epoch < 20_000, "no convergence, loss {last}");
        let mut sum = 0.;
        while let Some(batch) = training.next_batch() {
            let bx: Floats = x.columns_range(batch.start..batch.end).into();
            let by: Floats = y.columns_range(batch.start..batch.end).into();
            let predicted = forward(&mut nn, &bx);
            backward(&mut nn, &bx, &by, &predicted, rate);
            sum += (predicted - by).norm_squared();
        }
        last = sum / x.ncols() as f32;
        let verdict = training.finish_epoch(EpochOutcome {
            loss: last.to_bits(),
            elapsed: 0,
            test_accuracy: nn.test_accuracy,
        });
        assert!(!verdict.log);
        assert!(!verdict.reduce_rate);
    }
    assert!(last < 0.01, "loss {last}");
    let predicted = forward(&mut nn, &x);
    for j in 0..4 {
        assert!((predicted[(0, j)] - y[(0, j)]).abs() < 0.1, "{predicted}");
    }
    assert_eq!(training.step, training.epoch + 1);
}

#[test]
fn one_step_of_descent_lowers_the_loss() {
    let mut nn = network(NNOptions::default());
    let x = inputs();
    let y = labels();
    let predicted = forward(&mut nn, &x);
    let before = loss(&predicted, &y);
    backward(&mut nn, &x, &y, &predicted, 0.1);
    let after = loss(&forward(&mut nn, &x), &y);
    assert!(after < before, "{after} is not below {before}");
}

#[test]
fn forward_gives_one_row_per_output_and_one_column_per_sample() {
    let mut nn = network(NNOptions::default());
    for batch in [1usize, 2, 3, 4, 9] {
        let data = Floats::from_element(2, batch, 0.5);
        let out = forward(&mut nn, &data);
        assert_eq!(Some(out.shape()), nn.forward_shape((2, batch)));
        assert_eq!(out.shape(), (1, batch));
        assert_eq!(nn.layers[0].a.shape(), (2, batch));
        assert_eq!(nn.layers[1].z.shape(), (1, batch));
    }
}
