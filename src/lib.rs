//! An exhaustive solver for the arithmetic numbers puzzle: combine starting
//! numbers two at a time with `+ - * /` until the target value appears.

pub mod operation;
pub mod pairs;
pub mod state;
pub mod search;
