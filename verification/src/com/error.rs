//! Errors of the compute layer.

use crate::outside::hexadecimal;
use crate::sql::error::SqlError;
use crate::types::cid::Cid;
use crate::types::text;
use vstd::prelude::*;
use vstd::string::*;

verus! {

/// Why a compute operation failed.
#[derive(Debug, PartialEq, Eq)]
pub enum ComError {
    /// A program that does not compile.
    WasmCompilationFailed(String),
    /// An agent that used up its fuel.
    FuelExhausted { consumed: u64, limit: u64 },
    /// A function of the host failed.
    HostFunctionError { function: String, reason: String },
    /// A program that nothing is known of.
    ProgramNotFound(Cid),
    /// A program that is in the wrong state.
    SchedulerError(String),
    /// The engine could not be set up.
    RuntimeConfigError(String),
    /// A program without the function to be called.
    EntryPointNotFound(String),
    /// An agent that trapped.
    Trap(String),
    /// The database failed.
    SqlError(SqlError),
}

impl ComError {
    /// The error in words.
    pub open spec fn words(&self) -> Seq<char> {
        match self {
            ComError::WasmCompilationFailed(why) => "WASM compilation failed: "@ + why@,
            ComError::FuelExhausted { consumed, limit } => "fuel exhausted after consuming "@
                + text::decimal(*consumed as nat) + " units (limit: "@ + text::decimal(
                *limit as nat,
            ) + ")"@,
            ComError::HostFunctionError { function, reason } => "host function '"@ + function@
                + "' failed: "@ + reason@,
            ComError::ProgramNotFound(cid) => "program not found: "@ + hexadecimal::hex_text(cid@),
            ComError::SchedulerError(why) => "scheduler error: "@ + why@,
            ComError::RuntimeConfigError(why) => "runtime configuration error: "@ + why@,
            ComError::EntryPointNotFound(name) => "entry point '"@ + name@
                + "' not found in WASM module"@,
            ComError::Trap(why) => "WASM trap: "@ + why@,
            ComError::SqlError(e) => "CraftSQL error: "@ + e.words(),
        }
    }

    /// The error in words.
    pub fn message(&self) -> (words: String)
        ensures
            words@ == self.words(),
    {
        match self {
            ComError::WasmCompilationFailed(why) => text::join2(
                "WASM compilation failed: ",
                why.as_str(),
            ),
            ComError::FuelExhausted { consumed, limit } => text::with_numbers(
                "fuel exhausted after consuming ",
                *consumed,
                " units (limit: ",
                *limit,
                ")",
            ),
            ComError::HostFunctionError { function, reason } => {
                let mut words = text::join3("host function '", function.as_str(), "' failed: ");
                words.append(reason.as_str());
                words
            },
            ComError::ProgramNotFound(cid) => {
                let hex = cid.to_hex();
                text::join2("program not found: ", hex.as_str())
            },
            ComError::SchedulerError(why) => text::join2("scheduler error: ", why.as_str()),
            ComError::RuntimeConfigError(why) => text::join2(
                "runtime configuration error: ",
                why.as_str(),
            ),
            ComError::EntryPointNotFound(name) => text::join3(
                "entry point '",
                name.as_str(),
                "' not found in WASM module",
            ),
            ComError::Trap(why) => text::join2("WASM trap: ", why.as_str()),
            ComError::SqlError(e) => {
                let why = e.message();
                text::join2("CraftSQL error: ", why.as_str())
            },
        }
    }
}

}
