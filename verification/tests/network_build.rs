use jabba::activation::{Activation, ActivationType};
use jabba::layer::{Gradients, Layer};
use jabba::nn::{NNBuilder, NNOptions, StopCondition, NN};
use jabba::optimizers::adam_optimizer::AdamOptimizer;
use jabba::optimizers::{Optimizer, OptimizerType};
use jabba::Matrix;

fn filled(rows: usize, cols: usize, value: u32) -> Matrix {
    Matrix::from_column_slice(rows, cols, &vec![value; rows * cols]).unwrap()
}

#[test]
fn a_new_layer_is_all_zero() {
    let l = Layer::new(3, 2, Activation::sigmoid(), 4).unwrap();
    assert_eq!(l.weights.shape(), (2, 3));
    assert_eq!(l.bias.shape(), (2, 1));
    assert_eq!(l.a.shape(), (2, 4));
    assert_eq!(l.z.shape(), (2, 4));
    assert_eq!(l.weights.to_vec(), vec![0; 6]);
    assert_eq!(l.bias.to_vec(), vec![0; 2]);
    assert_eq!(l.neurons(), 2);
    assert_eq!(l.inputs(), 3);
    assert_eq!(l.activation.activation_type, ActivationType::Sigmoid);
    assert!(Layer::new(usize::MAX, 2, Activation::sigmoid(), 1).is_none());
    assert!(Layer::new(1, 2, Activation::sigmoid(), usize::MAX).is_none());
}

#[test]
fn a_layer_registers_weights_then_bias() {
    let mut o = AdamOptimizer::new();
    o.add_variables((9, 9));
    let mut l = Layer::new(3, 2, Activation::ReLu(), 1).unwrap();
    l.init(&mut o);
    assert_eq!((l.weights_index, l.bias_index), (1, 2));
    assert!(o.accepts(1, (2, 3)));
    assert!(o.accepts(2, (2, 1)));
}

#[test]
fn weights_and_bias_keep_their_shape() {
    let mut l = Layer::new(3, 2, Activation::ReLu(), 1).unwrap();
    assert!(l.set_weights(filled(2, 3, 5)));
    assert!(!l.set_weights(filled(3, 2, 6)));
    assert_eq!(l.weights.to_vec(), vec![5; 6]);
    assert!(l.set_bias(filled(2, 1, 7)));
    assert!(!l.set_bias(filled(2, 2, 8)));
    assert!(!l.set_bias(filled(1, 2, 8)));
    assert_eq!(l.bias.to_vec(), vec![7; 2]);
}

#[test]
fn prepare_lays_the_caches_out_for_the_batch() {
    let mut l = Layer::new(3, 2, Activation::ReLu(), 4).unwrap();
    assert!(l.store(filled(2, 4, 1), filled(2, 4, 2)));
    assert!(l.prepare((3, 4)));
    assert_eq!(l.z.to_vec(), vec![1; 8]);
    assert_eq!(l.a.to_vec(), vec![2; 8]);
    assert!(l.prepare((3, 5)));
    assert_eq!(l.a.shape(), (2, 5));
    assert_eq!(l.z.shape(), (2, 5));
    assert_eq!(l.a.to_vec(), vec![0; 10]);
    assert_eq!(l.z.to_vec(), vec![0; 10]);
    assert!(!l.prepare((2, 5)));
    assert!(!l.prepare((4, 1)));
    assert_eq!(l.a.shape(), (2, 5));
}

#[test]
fn store_wants_the_shape_of_the_caches() {
    let mut l = Layer::new(3, 2, Activation::ReLu(), 4).unwrap();
    assert!(!l.store(filled(2, 3, 1), filled(2, 4, 2)));
    assert!(!l.store(filled(2, 4, 1), filled(3, 4, 2)));
    assert_eq!(l.a.to_vec(), vec![0; 8]);
    assert_eq!(l.z.to_vec(), vec![0; 8]);
    assert!(l.store(filled(2, 4, 1), filled(2, 4, 2)));
    assert_eq!(l.z.to_vec(), vec![1; 8]);
    assert_eq!(l.a.to_vec(), vec![2; 8]);
}

#[test]
fn the_builder_chains_the_layers() {
    let options = NNOptions { batch_size: 4, ..NNOptions::default() };
    let nn = NNBuilder::new(784)
        .options(options)
        .add_layer(200, ActivationType::ReLuLeaky)
        .add_layer(100, ActivationType::ReLu)
        .add_layer(10, ActivationType::Sigmoid)
        .optimizer(OptimizerType::Adam)
        .build();
    let shapes: Vec<(usize, usize)> = nn.layers.iter().map(|l| l.weights.shape()).collect();
    assert_eq!(shapes, vec![(200, 784), (100, 200), (10, 100)]);
    let biases: Vec<(usize, usize)> = nn.layers.iter().map(|l| l.bias.shape()).collect();
    assert_eq!(biases, vec![(200, 1), (100, 1), (10, 1)]);
    let caches: Vec<(usize, usize)> = nn.layers.iter().map(|l| l.a.shape()).collect();
    assert_eq!(caches, vec![(200, 4), (100, 4), (10, 4)]);
    let kinds: Vec<ActivationType> =
        nn.layers.iter().map(|l| l.activation.activation_type).collect();
    assert_eq!(
        kinds,
        vec![ActivationType::ReLuLeaky, ActivationType::ReLu, ActivationType::Sigmoid]
    );
    let handles: Vec<(usize, usize)> =
        nn.layers.iter().map(|l| (l.weights_index, l.bias_index)).collect();
    assert_eq!(handles, vec![(0, 1), (2, 3), (4, 5)]);
    assert_eq!(nn.optimizer.kind(), OptimizerType::Adam);
    for l in &nn.layers {
        assert!(nn.optimizer.accepts(l.weights_index, l.weights.shape()));
        assert!(nn.optimizer.accepts(l.bias_index, l.bias.shape()));
    }
    assert_eq!(nn.test_accuracy, 0);
    assert_eq!(nn.options.batch_size, 4);
}

#[test]
fn the_builder_starts_plain() {
    let b = NNBuilder::new(5);
    assert_eq!(b.width(), 5);
    assert_eq!(b.optimizer_type, OptimizerType::Default);
    assert_eq!(b.options.batch_size, 1);
    let b = b.add_layer(3, ActivationType::ReLu);
    assert_eq!(b.width(), 3);
    let nn = b.build();
    assert_eq!(nn.optimizer.kind(), OptimizerType::Default);
    assert_eq!(nn.layers.len(), 1);
}

#[test]
fn stopping_at_an_accuracy_switches_testing_on() {
    let off = NNOptions {
        test: false,
        stop_condition: StopCondition::TestAccuracy(0.98f32.to_bits()),
        ..NNOptions::default()
    };
    assert!(NNBuilder::new(2).options(off).build().options.test);
    let stays_off = NNOptions {
        test: false,
        stop_condition: StopCondition::Epoch(3),
        ..NNOptions::default()
    };
    assert!(!NNBuilder::new(2).options(stays_off).build().options.test);
    let stays_on = NNOptions { test: true, ..stays_off };
    assert!(NNBuilder::new(2).options(stays_on).build().options.test);
}

#[test]
fn forward_shape_law() {
    let nn = NNBuilder::new(4)
        .add_layer(7, ActivationType::ReLu)
        .add_layer(5, ActivationType::ReLu)
        .add_layer(3, ActivationType::Sigmoid)
        .build();
    for batch in [1usize, 2, 16, 1000] {
        assert_eq!(nn.forward_shape((4, batch)), Some((3, batch)));
    }
    assert_eq!(nn.forward_shape((4, 0)), Some((3, 0)));
    assert_eq!(nn.forward_shape((5, 1)), None);
    assert_eq!(nn.forward_shape((3, 1)), None);
    let none = NNBuilder::new(4).build();
    assert_eq!(none.forward_shape((9, 2)), Some((9, 2)));
}

#[test]
fn forward_shape_sees_layers_that_do_not_fit() {
    let layers = vec![
        Layer::new(4, 3, Activation::ReLu(), 1).unwrap(),
        Layer::new(2, 5, Activation::ReLu(), 1).unwrap(),
    ];
    let mut nn = NN::new(layers, NNOptions::default(), AdamOptimizer::new());
    assert_eq!(nn.forward_shape((4, 1)), None);
    nn.set_test_accuracy(0.5f32.to_bits());
    assert_eq!(nn.test_accuracy, 0.5f32.to_bits());
}

#[test]
fn backward_shapes_follow_the_caches() {
    let mut l = Layer::new(3, 2, Activation::ReLu(), 4).unwrap();
    assert_eq!(
        l.backward_shapes((2, 4), (3, 4)),
        Some(Gradients { weights: (2, 3), bias: (2, 1), below: (3, 4) })
    );
    assert_eq!(l.backward_shapes((2, 5), (3, 5)), None);
    assert_eq!(l.backward_shapes((2, 4), (3, 5)), None);
    assert_eq!(l.backward_shapes((2, 4), (2, 4)), None);
    assert_eq!(l.backward_shapes((3, 4), (3, 4)), None);
    assert!(l.prepare((3, 5)));
    assert_eq!(
        l.backward_shapes((2, 5), (3, 5)),
        Some(Gradients { weights: (2, 3), bias: (2, 1), below: (3, 5) })
    );
}

#[test]
fn a_layer_from_parts_keeps_them() {
    let l = Layer::from_parts(filled(2, 3, 5), filled(2, 1, 6), Activation::ReLu_leaky(), 7).unwrap();
    assert!(l.check());
    assert_eq!(l.weights.to_vec(), vec![5; 6]);
    assert_eq!(l.bias.to_vec(), vec![6; 2]);
    assert_eq!(l.a.shape(), (2, 7));
    assert_eq!(l.z.shape(), (2, 7));
    assert_eq!(l.a.to_vec(), vec![0; 14]);
    assert_eq!(l.activation.activation_type, ActivationType::ReLuLeaky);
    assert_eq!((l.weights_index, l.bias_index), (0, 0));
    assert!(Layer::from_parts(filled(2, 3, 5), filled(3, 1, 6), Activation::ReLu(), 1).is_none());
    assert!(Layer::from_parts(filled(2, 3, 5), filled(2, 2, 6), Activation::ReLu(), 1).is_none());
    assert!(Layer::from_parts(filled(2, 3, 5), filled(2, 1, 6), Activation::ReLu(), usize::MAX)
        .is_none());
}

#[test]
fn check_sees_a_layer_that_was_put_out_of_shape() {
    let mut l = Layer::new(3, 2, Activation::ReLu(), 4).unwrap();
    assert!(l.check());
    l.bias = filled(3, 1, 0);
    assert!(!l.check());
    l.bias = filled(2, 1, 0);
    l.z = filled(2, 5, 0);
    assert!(!l.check());
    l.a = filled(2, 5, 0);
    assert!(l.check());
    l.weights = filled(4, 3, 0);
    assert!(!l.check());
}

#[test]
fn with_layer_takes_layers_that_fit() {
    let b = NNBuilder::new(3);
    assert!(b.check());
    let b = b.with_layer(Layer::new(3, 2, Activation::ReLu(), 1).unwrap()).unwrap();
    let b = b.with_layer(Layer::new(2, 5, Activation::sigmoid(), 1).unwrap()).unwrap();
    assert!(b.check());
    assert_eq!(b.width(), 5);
    assert!(b.with_layer(Layer::new(4, 1, Activation::ReLu(), 1).unwrap()).is_none());
    let mut broken = Layer::new(3, 2, Activation::ReLu(), 1).unwrap();
    broken.bias = filled(1, 1, 0);
    assert!(NNBuilder::new(3).with_layer(broken).is_none());
    assert!(NNBuilder::new(4).with_layer(Layer::new(3, 2, Activation::ReLu(), 1).unwrap()).is_none());
}

#[test]
fn check_sees_a_builder_whose_layers_do_not_fit() {
    let mut b = NNBuilder::new(3).add_layer(2, ActivationType::ReLu);
    assert!(b.check());
    b.num_inputs = 4;
    assert!(!b.check());
    b.num_inputs = 3;
    b.layers.push(Layer::new(5, 1, Activation::ReLu(), 1).unwrap());
    assert!(!b.check());
}
