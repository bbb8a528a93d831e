//! A small prefix-notation arithmetic language: a parser from text to
//! expression trees and an evaluator that reduces a tree to a number.
//!
//! Numbers are IEEE 754 binary64 values, held by their bit patterns. The
//! arithmetic on them, the reading of decimal literals and the writing of
//! values in decimal are all done on integers (see [`binary64`], [`rounding`],
//! [`arith`], [`decimal`] and [`shortest`]), so that every step is stated and
//! proved. What is written of a number is read back as that number (see
//! [`readback`]).

pub mod arith;
pub mod binary64;
pub mod decimal;
pub mod error;
pub mod eval;
pub mod expr;
pub mod grammar;
pub mod integer;
pub mod laws;
pub mod lexer;
pub mod natural;
pub mod ops;
pub mod parser;
pub mod readback;
pub mod rounding;
pub mod roundtrip;
pub mod shortest;
pub mod show;
pub mod turn;

pub use error::{ArithErr, EvalError, Expected, ParseError, ValueErr};
pub use eval::evaluate;
pub use expr::{SchemeExpr, SchemeOp};
pub use ops::eval_op;
pub use parser::{parse_expr, parse_float, parse_list, parse_op, parse_symbol};
pub use shortest::write_number;
pub use show::render;
pub use turn::{interpret, pretty, reply, Failure};
