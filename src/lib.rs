//! A command-line argument parser: options are registered with a short alias,
//! a long name and help text; `parse` hands values to options, runs their
//! callbacks and collects positional arguments; the registry renders its own
//! usage and help text.
pub mod checkarg;
pub mod help;
pub mod laws;
pub mod model;
pub mod parser;
pub mod rc;
pub mod registry;
pub mod text;
pub mod value_type;

pub use checkarg::{Callback, CheckArg, ParserState};
pub use rc::RC;
pub use value_type::ValueType;
