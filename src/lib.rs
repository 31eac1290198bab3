//! A strongly typed flag registry: flags are declared anywhere, collected into
//! one registry, resolved once from tokenized `--key[=value]` input, and each
//! flag accepts at most one initialization.
pub mod error;
pub mod flag;
pub mod list;
pub mod parse;
pub mod registry;
pub mod value;

pub use error::{
    FlagInitErr, FlagParseAndSetErr, FlagParseErr, FlagRegistryErr, FlagResolveErr, FlagSetErr, GlobalInitErr,
    InitErr,
};
pub use flag::Flag;
pub use list::FlagList;
pub use parse::FlagParseable;
pub use registry::{AnyFlag, FlagInitializer, FlagRegistry, FlagResolveResult};
pub use value::FlagValue;
