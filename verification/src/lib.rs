//! A spreadsheet formula engine: reference model, lexer, parser, value
//! lattice, dependency graph and recalculation.

pub mod calendar;
pub mod cell;
pub mod coherence;
pub mod criteria;
pub mod dependency;
pub mod errors;
pub mod evaluate;
pub mod function;
pub mod lexer;
pub mod lookup;
pub mod parser;
pub mod range;
pub mod search;
pub mod sheet;
pub mod text;
pub mod utils;
pub mod workbook;
