pub mod diagnostics;
pub mod edits;
pub mod line_index;
pub mod range;
pub mod rules;
pub mod text;
pub mod write;
pub mod order;
pub mod printer;
pub mod settings;
pub mod allow_comments;
pub mod source;
pub mod render;
pub mod logical_lines;
pub mod ast;
pub mod cli;
pub mod panic_error;
pub mod formatter;
pub mod diff;
pub mod symbols;
pub mod check;
pub mod check_path;
pub mod syntax;
pub mod lint_walk;
pub mod wrap;
pub mod node_text;
pub mod fix;
pub mod lints;
pub mod concise;
pub mod json_messages;
pub mod decl_edits;
pub mod grouped;
pub mod junit;
