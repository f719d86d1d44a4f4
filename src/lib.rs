//! A small text-templating engine: `Template::compile` turns a template text
//! into instructions, and `Template::render` evaluates them against a
//! `TemplateContext`.

pub mod context;
pub mod error;
pub mod instr;
pub mod laws;
pub mod scanner;
pub mod template;

pub use context::{TemplateContext, TemplateObject, TemplateValue};
pub use error::{ParseError, RenderError};
pub use instr::Instruction;
pub use scanner::Scanner;
pub use template::Template;
