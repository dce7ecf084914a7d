//! Helpers for work with bytes: a hex dump engine with its line renderer
//! and its model, joining and splitting of integers, text for binary
//! values and sizes, the verbosity of a command line, and the vocabulary of
//! a calculator.

pub mod args;
pub mod calculator;
pub mod display;
pub mod hedu;
pub mod join;
pub mod laws;
pub mod model;
pub mod render;
pub mod sink;
pub mod source;
pub mod split_numbers;
pub mod text;
