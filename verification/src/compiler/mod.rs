pub mod ast;
pub mod codegen;
pub mod composer;
pub mod functional;
pub mod parser;
pub mod scheduler;
