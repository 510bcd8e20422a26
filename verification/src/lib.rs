//! A small interpreter for a constrained trading language: statements bind
//! invented words to Roman numeral symbols or whole phrases to credit
//! amounts, and questions ask for the numeric value of a numeral phrase or
//! the credit value of a phrase with one unknown unit word.

pub mod error;
pub mod laws;
pub mod merchants_guide;
pub mod numbers;
pub mod roman;
pub mod text;
