//! A static-site rendering core: a minimal markdown block parser, a
//! plain-text title heuristic, and a template substitution engine.

pub mod arg_parser;
pub mod markdown_parser;
pub mod source_file;
pub mod template_file;
pub mod text;
