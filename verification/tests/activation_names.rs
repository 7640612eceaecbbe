use jabba::activation::{Activation, ActivationType};
use std::str::FromStr;

#[test]
fn the_three_names_are_read() {
    assert_eq!(ActivationType::from_str("ReLu"), Ok(ActivationType::ReLu));
    assert_eq!(ActivationType::from_str("ReLuLeaky"), Ok(ActivationType::ReLuLeaky));
    assert_eq!(ActivationType::from_str("Sigmoid"), Ok(ActivationType::Sigmoid));
}

#[test]
fn nothing_else_is_a_name() {
    for s in ["", "relu", "ReLU", "ReLu ", " ReLu", "ReLuLeak", "ReLuLeakyy", "sigmoid", "Tanh"] {
        assert_eq!(ActivationType::from_str(s), Err(()), "{s:?}");
        assert_eq!(ActivationType::from_bytes(s.as_bytes()), None, "{s:?}");
    }
}

#[test]
fn parse_goes_the_same_way() {
    assert_eq!("Sigmoid".parse::<ActivationType>(), Ok(ActivationType::Sigmoid));
    assert_eq!("sigmoid".parse::<ActivationType>(), Err(()));
    assert_eq!(<ActivationType as FromStr>::from_str("ReLu"), Ok(ActivationType::ReLu));
}

#[test]
fn a_name_is_what_debug_prints() {
    for t in [ActivationType::ReLu, ActivationType::ReLuLeaky, ActivationType::Sigmoid] {
        assert_eq!(t.tag(), format!("{t:?}"));
        assert_eq!(ActivationType::from_str(t.tag()), Ok(t));
        assert_eq!(ActivationType::from_bytes(t.tag().as_bytes()), Some(t));
    }
}

#[test]
fn constructors_carry_their_kind() {
    assert_eq!(Activation::ReLu().activation_type, ActivationType::ReLu);
    assert_eq!(Activation::ReLu_leaky().activation_type, ActivationType::ReLuLeaky);
    assert_eq!(Activation::sigmoid().activation_type, ActivationType::Sigmoid);
    assert_eq!(ActivationType::Sigmoid.activation(), Activation::sigmoid());
}
