//! Analysis, checking and re-emission of BNF grammars for tree-sitter.

pub mod diagnostic;
pub mod directive;
pub mod error;
pub mod nodes;
pub mod production;
pub mod rules;
pub mod text;
pub mod nameset;
pub mod types;
pub mod analysis;
pub mod summary;
pub mod checks;
pub mod rename;
pub mod format;
pub mod chars;
pub mod util;
pub mod visitor;
pub mod cli;
pub mod scaffold;
pub mod scaffold_config;
pub mod railroad;
pub mod kinds;
pub mod merge;
pub mod ast;
pub mod graph;
pub mod assemble;
pub mod test_utils;
