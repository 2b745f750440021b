//! Evaluation of Breakpad-style postfix (reverse-Polish) expressions, as used
//! by call-frame unwinders: byte-order-aware decoding of register-sized values
//! from raw memory, a bounds-checked memory region, a recursive expression and
//! assignment data model, a postfix parser with an exact error taxonomy, and
//! an evaluator that walks expression trees against constant and variable
//! bindings and an optional memory region.

pub mod base;
pub mod decimal;
pub mod evaluator;
pub mod values;
