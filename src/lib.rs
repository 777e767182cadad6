//! An arithmetic expression evaluator: a string of decimal literals, the four
//! binary operators and parentheses is split into tokens, reordered into
//! postfix form by a shunting-yard pass, and evaluated on a value stack.
//!
//! Values are exact fractions of two `i128` integers. A step whose result does
//! not fit, and a division by zero, have no finite value: evaluation then fails.
pub mod number;
pub mod lexer;
pub mod postfix;
pub mod eval;
pub mod shape;
pub mod entry;
