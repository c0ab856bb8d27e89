//! A small C compiler core: lowering of a resolved syntax tree into three-address
//! code, and translation of that code into legalized x86-64 assembly text.
mod decimal;

pub mod ast;
pub mod tac;
pub mod assembly;
pub mod assembly_parser;
pub mod assembly_passes;
pub mod visitor;
pub mod errors;
pub mod lexer;
pub mod loop_labeling;
pub mod labels;
