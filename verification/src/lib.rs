//! Parser, validator, canonical formatter and emitters for `.llm`
//! prompt documents.
pub mod text;
pub mod diagnostics;
pub mod ast;
pub mod lexer;
pub mod parser;
pub mod transpile;
pub mod validator;
pub mod formatter;
pub mod provider;
pub mod merge;
pub mod inclusion;
pub mod bench;
pub mod pipeline;
pub mod canonical;
pub mod composer;
pub mod commands;

pub use ast::{Document, MappingEntry, Node, TopLevelKey};
pub use diagnostics::{Diagnostic, DiagnosticBag, DiagnosticPhase, Severity, Span};
pub use formatter::format_document;
pub use parser::parse_str;
pub use provider::{Provider, ProviderProfile, ShadowProfile, SupportStatus, TokenizerProfile};
pub use validator::validate_document;
