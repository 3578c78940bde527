//! Regular expressions over bytes, and their string-literal escaping.

pub mod ast;
pub mod builder;
pub mod byteset;
pub mod decoding;
pub mod derivative;
pub mod distinct;
pub mod error;
pub mod escape;
pub mod expr;
pub mod grammars;
pub mod image;
pub mod json_quote;
pub mod lang;
pub mod laws;
pub mod normal_form;
pub mod number;
pub mod pattern;
pub mod pp;
pub mod quote;
pub mod regex;
pub mod remainder;
pub mod render;
pub mod semantics;
pub mod sorting;
pub mod strings;
pub mod syntax;
pub mod text;
pub mod unfold;
pub mod util;
pub mod wording;

pub use crate::ast::RegexAst;
pub use crate::builder::RegexBuilder;
pub use crate::error::Error;
pub use crate::escape::{FallbackFormat, StringEscapeOptions};
pub use crate::expr::{ExprRef, ExprSet};
pub use crate::json_quote::JsonQuoteOptions;
pub use crate::regex::{Regex, StateID};
pub use crate::remainder::check_remainder;
