//! Abstract spending policies.

pub mod ast;
pub mod display;
pub mod order;
pub mod parse;
pub mod syntax;
pub mod translate;
