//! Compiles a hotkey configuration, as the grammar has parsed it, into the
//! concrete bindings it denotes.
//!
//! A trigger is written with shorthands: `{a,b}` lists alternatives, `a-c`
//! spans a range of characters. A binding's trigger and its command are each
//! multiplied out into all their variants and then paired by position, so
//! both sides must come to the same number of variants. Bindings and unbinds
//! may stand in named modes, and a configuration may import other files;
//! every imported file is merged once.
//!
//! * [`syntax`]: the syntax tree the compiler reads.
//! * [`token`]: modifiers, keys and key flags.
//! * [`range`]: ranges of characters.
//! * [`product`]: cartesian products of slots of alternatives.
//! * [`definition`]: triggers and their expansion.
//! * [`command`]: commands and their expansion.
//! * [`binding`]: triggers paired with commands.
//! * [`mode`]: modes.
//! * [`paths`]: ordered sets of import paths.
//! * [`parser`]: whole configurations and their imports.
//! * [`listing`]: a declaration multiplied out into plain tokens.
//! * [`error`]: the failures.
//! * [`laws`]: what holds of every compilation.

pub mod binding;
pub mod command;
pub mod definition;
pub mod error;
pub mod laws;
pub mod listing;
pub mod mode;
pub mod parser;
pub mod paths;
pub mod product;
pub mod range;
pub mod syntax;
pub mod token;

pub use crate::binding::{binding_parser, Binding};
pub use crate::definition::{
    parse_key, unbind_parser, unescape, Definition, DefinitionUncompiled,
};
pub use crate::error::{ParseError, RangeFault};
pub use crate::listing::Token;
pub use crate::mode::{mode_parser, Mode};
pub use crate::parser::{import_parser, ParserInput, SourceFile, SwhkdParser};
pub use crate::syntax::{Node, Rule, Span};
pub use crate::token::{Key, KeyAttribute, Modifier};
