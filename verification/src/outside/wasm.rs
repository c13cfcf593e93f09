//! WebAssembly engines and modules.

use vstd::prelude::*;
use wasmtime::Config;
use wasmtime::Engine;
use wasmtime::Module;
use wasmtime::OptLevel;

verus! {

/// The type `wasmtime::Engine`.
#[verifier::external_type_specification]
#[verifier::external_body]
pub struct ExEngine(wasmtime::Engine);

/// The type `wasmtime::Module`.
#[verifier::external_type_specification]
#[verifier::external_body]
pub struct ExModule(wasmtime::Module);

/// The first four bytes of every WebAssembly binary.
pub open spec fn has_magic(bytes: Seq<u8>) -> bool {
    &&& bytes.len() >= 4
    &&& bytes[0] == 0x00
    &&& bytes[1] == 0x61
    &&& bytes[2] == 0x73
    &&& bytes[3] == 0x6d
}

/// How much an engine optimizes the programs that it compiles.
#[derive(Clone, Copy, Debug, PartialEq, Eq, Structural)]
pub enum Optimization {
    /// Not at all.
    Nothing,
    /// For speed.
    Speed,
    /// For speed and for small code.
    SpeedAndSize,
}

/// The settings of an engine.
#[derive(Clone, Copy, Debug, PartialEq, Eq, Structural)]
pub struct EngineSettings {
    /// Whether programs consume fuel, so that one that runs out of it is stopped.
    pub consume_fuel: bool,
    /// How much programs are optimized.
    pub optimization: Optimization,
}

/// An engine, with the settings under which it was made.
pub struct BuiltEngine {
    engine: Engine,
    settings: EngineSettings,
}

impl BuiltEngine {
    /// The settings.
    pub closed spec fn made_with(&self) -> EngineSettings {
        self.settings
    }

    /// The engine.
    pub closed spec fn inner(&self) -> Engine {
        self.engine
    }

    /// The engine.
    pub fn engine(&self) -> (engine: &Engine)
        ensures
            *engine == self.inner(),
    {
        &self.engine
    }
}

/// `wasmtime::Engine::new` with a configuration that has the given settings
/// (`Config::consume_fuel`, `Config::cranelift_opt_level`) and is otherwise the default one;
/// an error comes back in words. An engine that comes back was made with these settings.
/// Whether one can be made depends on the machine, so nothing is claimed of that.
#[verifier::external_body]
pub(crate) fn new_engine(settings: EngineSettings) -> (built: Result<BuiltEngine, String>)
    ensures
        built matches Ok(b) ==> b.made_with() == settings,
{
    let mut config = Config::new();
    config.consume_fuel(settings.consume_fuel);
    config.cranelift_opt_level(match settings.optimization {
        Optimization::Nothing => OptLevel::None,
        Optimization::Speed => OptLevel::Speed,
        Optimization::SpeedAndSize => OptLevel::SpeedAndSize,
    });
    let engine = Engine::new(&config).map_err(|e| e.to_string())?;
    Ok(BuiltEngine { engine, settings })
}

/// A program that an engine compiled. There is one only of bytes that were compiled.
pub struct CompiledModule {
    module: Module,
    engine: Ghost<Engine>,
    source: Ghost<Seq<u8>>,
}

impl CompiledModule {
    /// The compiled program.
    pub closed spec fn inner(&self) -> Module {
        self.module
    }

    /// The bytes that were compiled.
    pub closed spec fn source(&self) -> Seq<u8> {
        self.source@
    }

    /// The engine that compiled them.
    pub closed spec fn compiled_by(&self) -> Engine {
        self.engine@
    }

    /// The compiled program.
    pub fn module(&self) -> (module: &Module)
        ensures
            *module == self.inner(),
    {
        &self.module
    }
}

/// `wasmtime::Module::new`; an error comes back in words. A module that comes back was
/// compiled by the given engine from all of the given bytes. Bytes that do not begin like a
/// WebAssembly binary are refused: the crate's `wat` feature, with which it would take
/// programs in text form too, is not among those named in Cargo.toml. Which others compile
/// depends on the engine and the machine, and nothing is claimed of it.
#[verifier::external_body]
pub(crate) fn compile_module(engine: &Engine, bytes: &[u8]) -> (compiled: Result<
    CompiledModule,
    String,
>)
    ensures
        compiled matches Ok(m) ==> has_magic(bytes@) && m.source() == bytes@ && m.compiled_by()
            == *engine,
{
    let module = Module::new(engine, bytes).map_err(|e| e.to_string())?;
    Ok(CompiledModule { module, engine: Ghost(*engine), source: Ghost(bytes@) })
}

}
