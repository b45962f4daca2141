//! Parser for the Android.bp build-description format.
mod concat;
mod diagnostics;
mod document;
mod error;
mod grammar;
pub mod laws;
mod lexer;
mod rules;
mod text;
mod value;

pub use document::{BluePrint, Module};
pub use error::{Frame, Label, Note, SyntaxError};
pub use value::{Dict, Function, Value};
pub use rules::{parse_array, parse_bool, parse_expr, parse_int, parse_module, parse_module_entry};
pub use document::{BluePrintModel, ModuleModel};
pub use value::ValueModel;
