//! Scripted hooks: route handlers may carry Lua callables for
//! pre-processing, post-processing and session issuance.
//!
//! The Lua state and functions are opaque to the verifier; each call goes
//! through one trusted wrapper, and everything decided about the outcome
//! (user error against system error, the arity fallback) is verified code
//! over plain strings.

use vstd::prelude::*;

use crate::json::{json_of_serde, serde_of_json, JsonValue};
use mlua::LuaSerdeExt;

verus! {

/// The Lua interpreter state, opaque to the verifier.
#[verifier::external_type_specification]
#[verifier::external_body]
pub struct ExLua(mlua::Lua);

/// A Lua callable, opaque to the verifier.
#[verifier::external_type_specification]
#[verifier::external_body]
pub struct ExLuaFunction(mlua::Function);

/// A Lua value, opaque to the verifier.
#[verifier::external_type_specification]
#[verifier::external_body]
pub struct ExLuaValue(mlua::Value);

/// A Lua failure, opaque to the verifier.
#[verifier::external_type_specification]
#[verifier::external_body]
pub struct ExLuaError(mlua::Error);

/// What one Lua call came back with.
pub enum LuaOutcome {
    /// The call returned, and the result deserialized to JSON.
    Value(JsonValue),
    /// The call returned something JSON cannot carry.
    Unserializable,
    /// The Lua runtime raised an error with this message.
    RuntimeError(String),
    /// Any other failure, rendered as text.
    OtherError(String),
}

/// Relies on `LuaSerdeExt::from_value`: converts what a call came back
/// with; the error arms only tell `mlua::Error`'s variants apart.
#[verifier::external_body]
fn lua_outcome_of(lua: &mlua::Lua, r: Result<mlua::Value, mlua::Error>) -> LuaOutcome {
    match r {
        Ok(v) => match lua.from_value::<serde_json::Value>(v) {
            Ok(j) => LuaOutcome::Value(json_of_serde(j)),
            Err(_) => LuaOutcome::Unserializable,
        },
        Err(mlua::Error::RuntimeError(m)) => LuaOutcome::RuntimeError(m),
        Err(e) => LuaOutcome::OtherError(e.to_string()),
    }
}

/// Relies on `mlua::Function::call` and `LuaSerdeExt::to_value`: calls the
/// hook with one argument.
#[verifier::external_body]
pub(crate) fn lua_call_1(lua: &mlua::Lua, f: &mlua::Function, arg: &JsonValue) -> LuaOutcome {
    let a = match lua.to_value(&serde_of_json(arg)) {
        Ok(a) => a,
        Err(e) => return LuaOutcome::OtherError(e.to_string()),
    };
    lua_outcome_of(lua, f.call::<mlua::Value>(a))
}

/// Relies on `mlua::Function::call` and `LuaSerdeExt::to_value`: calls the
/// hook with two arguments, the second nil when no claims are present.
#[verifier::external_body]
pub(crate) fn lua_call_2(
    lua: &mlua::Lua,
    f: &mlua::Function,
    arg: &JsonValue,
    claims: Option<&JsonValue>,
) -> LuaOutcome {
    let a = match lua.to_value(&serde_of_json(arg)) {
        Ok(a) => a,
        Err(e) => return LuaOutcome::OtherError(e.to_string()),
    };
    let c = match claims.map(|j| lua.to_value(&serde_of_json(j))) {
        Some(Ok(c)) => c,
        Some(Err(e)) => return LuaOutcome::OtherError(e.to_string()),
        None => mlua::Value::Nil,
    };
    lua_outcome_of(lua, f.call::<mlua::Value>((a, c)))
}

} // verus!
