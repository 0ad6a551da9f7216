//! Code-generation back end of an IDL compiler: consumes an already-parsed,
//! already-validated module of IDL declarations (structs, classes,
//! exceptions, enums, interfaces) and emits equivalent source code in a
//! statically typed, object-oriented host language, including both data-type
//! definitions and RPC stub code (client-side proxies and server-side
//! dispatch).
//!
//! Generation is a pure function of one file's declarations plus the options
//! structure: every public generator pins its output text to a spec-level
//! function of its inputs, so generating the same file twice yields
//! byte-identical text.
//!
//! Beside the text engine, `codec` gives the wire-encoding discipline the
//! generated code follows (field order, tagged-optional skipping, base-to-
//! derived class slices, enum range checking) as verified encode/decode
//! functions, with the round-trip and slicing laws proved, and `ops` gives
//! the merged operation set and request routing that proxies and dispatchers
//! are generated from.
pub mod assembler;
pub mod ast;
pub mod codec;
pub mod generators;
pub mod ops;
pub mod text;
