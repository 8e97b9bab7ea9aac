//! Parsers for the solver's input languages.

pub mod combinators;
pub mod empty;
pub mod euf;
