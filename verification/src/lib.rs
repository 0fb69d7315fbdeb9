//! A symbolic algebra simplifier: expression trees over exact integer and
//! rational arithmetic, symbolic variables, powers, products, sums and a few
//! named functions, normalized into a canonical form by a recursive
//! term-rewriting engine. The engine's behaviour is stated by the
//! mathematical model in `model`, and every executable function is proved to
//! compute exactly what the model says.

pub mod arith;
pub mod ast;
pub mod display;
pub mod errors;
pub mod expression;
pub mod laws;
pub mod lexer;
pub mod model;
pub mod parser;
pub mod order;
pub mod strings;
pub mod traits;
pub mod types;
