//! A lambda-calculus evaluator: named terms, their de Bruijn form, and
//! beta-reduction under four evaluation strategies.

pub mod error;
pub mod evaluate;
pub mod parser;
pub mod model;
pub mod term;
pub mod text;
pub mod laws;
pub mod confluence;
pub mod bigstep;
pub mod debruijn;
