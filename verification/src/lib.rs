//! A small feed-forward network trainer.
//!
//! This crate holds everything about the trainer that is exact: the shapes
//! of the layers, the slots an optimizer keeps per parameter tensor, the
//! schedule and the stopping rule of a training run, the text format of a
//! saved model, and the label utilities. Numbers are carried as bit patterns
//! (see [`scalar`]); the arithmetic on them is the caller's.

pub mod activation;
pub mod layer;
pub mod matrix;
pub mod nn;
pub mod numeral;
pub mod optimizers;
pub mod scalar;
pub mod storage;
pub mod text;
pub mod training;
pub mod utils;

pub use matrix::Matrix;
