//! The expression language: its tree, its wire syntax and its evaluator.

pub mod ast;
pub mod base94;
pub mod eval;
pub mod laws;
pub mod lexer;
pub mod parser;
pub mod roundtrip;
pub mod serializer;

pub use ast::BinaryOp;
pub use ast::EvalStrat;
pub use ast::Node;
pub use ast::NodeRef;
pub use ast::UnuaryOp;
pub use ast::Value;
pub use ast::VarId;
pub use base94::base94_to_int;
pub use base94::base94_to_str;
pub use base94::int_to_base94;
pub use base94::str_to_base94;
pub use eval::evaluate;
pub use eval::EvalError;
pub use eval::Evaluator;
pub use lexer::Token;
pub use parser::parse;
pub use parser::ParsingError;
pub use serializer::serialize;
pub use serializer::serialize_str;
