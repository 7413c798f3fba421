use vstd::prelude::*;

verus! {

/// A consistency problem found in a resolved configuration.
#[derive(Debug, PartialEq)]
pub enum Violation {
    /// The entry point still holds the unset sentinel.
    UnsetCaller,
    /// A listed crash checkpoint holds the unset sentinel.
    UnsetCrashPoint,
    /// A listed exit checkpoint holds the unset sentinel.
    UnsetExitPoint,
    /// A memory key holds the unset sentinel; names the owning test, if any.
    UnsetMemoryKey(Option<String>),
    /// Two assignments of one memory map cover a common byte: the owning test
    /// (none for the file-level map) and the two base addresses.
    MemoryOverlap(Option<String>, u16, u16),
    /// Two tests carry the same name.
    DuplicateTestName(String),
}

/// Why a configuration could not be resolved.
#[derive(Debug, PartialEq)]
pub enum ConfigError {
    /// A value has another shape than the one its position asks for; names the key.
    ShapeMismatch(String),
    /// A token is neither an address literal in range nor an identifier.
    InvalidAddressToken(String),
    /// A label has no entry in the symbol table.
    UnresolvedLabel(String),
    /// An entry is neither a memory assignment nor a test; names the offending key.
    AmbiguousEntry(String),
    /// The resolved configuration breaks its invariants; lists every violation.
    ValidationFailure(Vec<Violation>),
}

} // verus!
