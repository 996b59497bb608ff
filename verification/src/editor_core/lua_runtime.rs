//! Errors of the Lua configuration runtime.
use vstd::prelude::*;

verus! {

#[verifier::external_type_specification]
#[verifier::external_body]
pub struct ExLuaError(mlua::Error);

#[verifier::external_type_specification]
#[verifier::external_body]
pub struct ExIoError(std::io::Error);

/// Why the Lua runtime, or a call from Lua into the editor, failed.
#[derive(Debug)]
pub enum LuaRuntimeError {
    /// A Lua operation failed.
    Lua(mlua::Error),
    /// A config file could not be read.
    InvalidConfigPath(std::io::Error),
    /// The argument at this position (from 0) is invalid.
    InvalidArg(u8),
}

} // verus!
