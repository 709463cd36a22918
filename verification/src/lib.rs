//! A verified calculator for durations written in clock notation.
//!
//! An expression such as `"00:10 + 06:12 / 2"` is tokenized into integer
//! second counts and operator symbols, reordered into postfix form by the
//! shunting-yard algorithm, evaluated on a value stack with non-negative
//! integer semantics, and formatted back as `HH:MM:SS`.

pub mod converter;
pub mod engine;
pub mod evaluator;
pub mod formatter;
pub mod laws;
pub mod scaler;
pub mod token;
pub mod tokenizer;
