//! The runtime: what comes of running an agent under a fuel limit.

use crate::com::error::ComError;
use crate::outside::wasm;
use crate::outside::wasm::BuiltEngine;
use crate::outside::wasm::CompiledModule;
use crate::outside::wasm::EngineSettings;
use crate::outside::wasm::Optimization;
use crate::types::text;
use vstd::prelude::*;
use vstd::string::*;
use wasmtime::Engine;

verus! {

/// The fuel of a call where none is given.
pub const DEFAULT_FUEL_LIMIT: u64 = 10_000_000;

/// What came of running an agent; `T` is the type of the values that it returns.
pub enum AgentRun<T> {
    /// The program does not compile, with the error that compiling gave.
    NotCompiled(ComError),
    /// The fuel could not be set.
    NotFueled(String),
    /// The functions of the host could not be linked.
    NotLinked(String),
    /// The program could not be instantiated.
    NotInstantiated(String),
    /// The program has no function of that name.
    NoEntryPoint,
    /// The call failed, with so much fuel left.
    Failed { message: String, fuel_left: u64 },
    /// The call returned, with so much fuel left.
    Returned { values: Vec<T>, fuel_left: u64 },
}

/// Whether a message is about fuel.
pub open spec fn about_fuel(message: Seq<char>) -> bool {
    text::holds(message, "fuel"@) || text::holds(message, "Fuel"@)
}

/// Runs agents.
pub struct ComRuntime {
    engine: BuiltEngine,
    fuel_limit: u64,
}

impl ComRuntime {
    /// The fuel of a call.
    pub closed spec fn limit(&self) -> u64 {
        self.fuel_limit
    }

    /// The engine.
    pub closed spec fn inner(&self) -> Engine {
        self.engine.inner()
    }

    /// The settings of the engine.
    pub closed spec fn settings(&self) -> EngineSettings {
        self.engine.made_with()
    }

    /// Whether the programs that run consume fuel.
    pub open spec fn metered(&self) -> bool {
        self.settings().consume_fuel
    }

    /// A runtime with a fuel limit, whose programs consume fuel and are optimized for speed.
    /// Whether there can be an engine is up to the machine.
    pub fn new(fuel_limit: u64) -> (result: Result<ComRuntime, ComError>)
        ensures
            match result {
                Ok(runtime) => {
                    &&& runtime.limit() == fuel_limit
                    &&& runtime.metered()
                    &&& runtime.settings().optimization == Optimization::Speed
                },
                Err(e) => e is RuntimeConfigError,
            },
    {
        ComRuntime::from_engine(fuel_limit, wasm::new_engine(ComRuntime::engine_settings()))
    }

    /// The settings of the engine that runs agents: programs consume fuel, so that they end,
    /// and are optimized for speed, since they live long.
    pub fn engine_settings() -> (settings: EngineSettings)
        ensures
            settings.consume_fuel,
            settings.optimization == Optimization::Speed,
    {
        EngineSettings { consume_fuel: true, optimization: Optimization::Speed }
    }

    /// A runtime with a fuel limit, given what came of making its engine.
    pub fn from_engine(fuel_limit: u64, built: Result<BuiltEngine, String>) -> (result: Result<
        ComRuntime,
        ComError,
    >)
        ensures
            match built {
                Ok(engine) => {
                    &&& result matches Ok(runtime)
                    &&& runtime.limit() == fuel_limit
                    &&& runtime.inner() == engine.inner()
                    &&& runtime.settings() == engine.made_with()
                },
                Err(why) => result == Err::<ComRuntime, ComError>(
                    ComError::RuntimeConfigError(why),
                ),
            },
    {
        match built {
            Ok(engine) => Ok(ComRuntime { engine, fuel_limit }),
            Err(why) => Err(ComError::RuntimeConfigError(why)),
        }
    }

    /// A runtime with the default fuel limit.
    pub fn with_default_fuel() -> (result: Result<ComRuntime, ComError>)
        ensures
            match result {
                Ok(runtime) => {
                    &&& runtime.limit() == DEFAULT_FUEL_LIMIT
                    &&& runtime.metered()
                    &&& runtime.settings().optimization == Optimization::Speed
                },
                Err(e) => e is RuntimeConfigError,
            },
    {
        ComRuntime::new(DEFAULT_FUEL_LIMIT)
    }

    /// Compiles a program with the engine of the runtime. Bytes that do not begin like a
    /// program never compile; of others it is up to the engine.
    pub fn compile(&self, wasm_bytes: &[u8]) -> (result: Result<CompiledModule, ComError>)
        ensures
            match result {
                Ok(m) => {
                    &&& m.source() == wasm_bytes@
                    &&& m.compiled_by() == self.inner()
                    &&& wasm::has_magic(wasm_bytes@)
                },
                Err(e) => e is WasmCompilationFailed,
            },
    {
        ComRuntime::from_compiled(wasm::compile_module(self.engine.engine(), wasm_bytes))
    }

    /// A compiled program, given what came of compiling it.
    pub fn from_compiled(compiled: Result<CompiledModule, String>) -> (result: Result<
        CompiledModule,
        ComError,
    >)
        ensures
            result == (match compiled {
                Ok(m) => Ok::<CompiledModule, ComError>(m),
                Err(why) => Err::<CompiledModule, ComError>(ComError::WasmCompilationFailed(why)),
            }),
    {
        match compiled {
            Ok(m) => Ok(m),
            Err(why) => Err(ComError::WasmCompilationFailed(why)),
        }
    }

    /// The result of running an agent. A call that failed on account of fuel tells how much
    /// was used; any other failure of the program is a trap.
    pub fn execute_agent<T>(&self, entry_point: &str, run: AgentRun<T>) -> (result: Result<
        Vec<T>,
        ComError,
    >)
        requires
            run matches AgentRun::Failed { fuel_left, .. } ==> fuel_left <= self.limit(),
        ensures
            match run {
                AgentRun::NotCompiled(e) => result == Err::<Vec<T>, ComError>(e),
                AgentRun::NotFueled(why) => result == Err::<Vec<T>, ComError>(
                    ComError::RuntimeConfigError(why),
                ),
                AgentRun::NotLinked(why) => result == Err::<Vec<T>, ComError>(
                    ComError::RuntimeConfigError(why),
                ),
                AgentRun::NotInstantiated(why) => result == Err::<Vec<T>, ComError>(
                    ComError::Trap(why),
                ),
                AgentRun::NoEntryPoint => result matches Err(ComError::EntryPointNotFound(name))
                    && name@ == entry_point@,
                AgentRun::Failed { message, fuel_left } => if about_fuel(message@) {
                    result == Err::<Vec<T>, ComError>(
                        ComError::FuelExhausted {
                            consumed: (self.limit() - fuel_left) as u64,
                            limit: self.limit(),
                        },
                    )
                } else {
                    result == Err::<Vec<T>, ComError>(ComError::Trap(message))
                },
                AgentRun::Returned { values, .. } => result == Ok::<Vec<T>, ComError>(values),
            },
    {
        match run {
            AgentRun::NotCompiled(e) => Err(e),
            AgentRun::NotFueled(why) => Err(ComError::RuntimeConfigError(why)),
            AgentRun::NotLinked(why) => Err(ComError::RuntimeConfigError(why)),
            AgentRun::NotInstantiated(why) => Err(ComError::Trap(why)),
            AgentRun::NoEntryPoint => Err(
                ComError::EntryPointNotFound(String::from_str(entry_point)),
            ),
            AgentRun::Failed { message, fuel_left } => {
                if text::contains_text(message.as_str(), "fuel") || text::contains_text(
                    message.as_str(),
                    "Fuel",
                ) {
                    Err(
                        ComError::FuelExhausted {
                            consumed: self.fuel_limit - fuel_left,
                            limit: self.fuel_limit,
                        },
                    )
                } else {
                    Err(ComError::Trap(message))
                }
            },
            AgentRun::Returned { values, .. } => Ok(values),
        }
    }

    /// The fuel of a call.
    pub fn fuel_limit(&self) -> (limit: u64)
        ensures
            limit == self.limit(),
    {
        self.fuel_limit
    }

    /// The engine.
    pub fn engine(&self) -> (engine: &Engine)
        ensures
            *engine == self.inner(),
    {
        self.engine.engine()
    }
}

}
