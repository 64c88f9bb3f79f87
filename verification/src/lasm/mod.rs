//! The surface language: let-bound definitions, infix operators and
//! recursion, compiled to the expression language.

pub mod ast;
pub mod compiler;
pub mod parser;

pub use ast::Binding;
pub use ast::Iden;
pub use ast::LNode;
pub use ast::LNodeRef;
pub use compiler::compile;
pub use compiler::CompileError;
pub use compiler::Compiler;
pub use parser::parse;
pub use parser::SyntaxError;
