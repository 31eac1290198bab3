use vstd::prelude::*;

verus! {

/// Why setting a flag from text failed.
#[derive(Debug, Clone, PartialEq, Eq)]
pub enum InitErr {
    /// The flag was initialized before.
    AlreadyInitOnce,
    /// The text does not denote a value of the flag's type; it is carried.
    FailedToParse(String),
}

/// Why collecting the declared flags failed for one declaration.
#[derive(Debug, Clone, PartialEq, Eq)]
pub enum GlobalInitErr {
    /// This declaration's name is used by another declaration; the fields
    /// give this declaration's site.
    SharesNameWith { file_name: String, line_number: u32 },
    InitErr(InitErr),
}

/// Text that does not denote a value of the flag's type.
#[derive(Debug, Clone, PartialEq, Eq)]
pub enum FlagParseErr {
    InvalidValue(String),
}

/// Why a flag could not be set from text.
#[derive(Debug, Clone, PartialEq, Eq)]
pub enum FlagParseAndSetErr {
    ParseErr(FlagParseErr),
    SetErr(FlagInitErr),
}

/// Why a flag could not be added to the registry.
#[derive(Debug, Clone, PartialEq, Eq)]
pub enum FlagRegistryErr {
    AlreadyExists,
}

/// Why one key of the input was not applied.
#[derive(Debug, Clone, PartialEq, Eq)]
pub enum FlagResolveErr {
    ParseAndSetErr(FlagParseAndSetErr),
    UndefinedFlag,
}

/// Why an overwrite of a flag was refused.
#[derive(Debug, Clone, PartialEq, Eq)]
pub enum FlagSetErr {
    Uninitialized,
    OverwriteNotAllowed,
}

/// Why an initialization of a flag was refused.
#[derive(Debug, Clone, PartialEq, Eq)]
pub enum FlagInitErr {
    AlreadyInitialized,
}

} // verus!
