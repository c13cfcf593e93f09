//! Agents, their runtime, their host functions and their scheduler.

use craftec::com::agent::Agent;
use craftec::com::agent::AgentKind;
use craftec::com::error::ComError;
use craftec::com::host::Fetched;
use craftec::com::host::HostFunctions;
use craftec::com::host::HostState;
use craftec::com::host::LogLevel;
use craftec::com::host::Queried;
use craftec::com::host::SIGN_RATE_LIMIT;
use craftec::com::runtime::AgentRun;
use craftec::com::runtime::ComRuntime;
use craftec::com::runtime::DEFAULT_FUEL_LIMIT;
use craftec::com::scheduler::ProgramScheduler;
use craftec::com::scheduler::ProgramState;
use craftec::crypto::sign::verify_signature;
use craftec::crypto::sign::KeyStore;
use craftec::types::cid::Cid;

fn cid(seed: u8) -> Cid {
    Cid::from_bytes([seed; 32])
}

// Agents

#[test]
fn built_in_constructors_produce_correct_kind() {
    assert_eq!(Agent::local_eviction(cid(0)).kind, AgentKind::LocalEviction);
    assert_eq!(Agent::reputation_scoring(cid(1)).kind, AgentKind::ReputationScoring);
    assert_eq!(Agent::load_balancing(cid(2)).kind, AgentKind::LoadBalancing);
    assert_eq!(Agent::degradation_policy(cid(3)).kind, AgentKind::DegradationPolicy);
    assert_eq!(Agent::schema_migration(cid(4)).kind, AgentKind::SchemaMigration);
}

#[test]
fn custom_agent_kind_display() {
    let kind = AgentKind::Custom(cid(0xFF));
    let s = kind.text();
    assert!(s.starts_with("Custom("));
}

#[test]
fn agent_display_includes_name_and_cid() {
    let agent = Agent::local_eviction(cid(0x01));
    let s = agent.text();
    assert!(s.contains("LocalEviction"));
    assert!(s.contains("wasm="));
}

// Runtime

fn runtime(fuel: u64) -> ComRuntime {
    match ComRuntime::new(fuel) {
        Ok(rt) => rt,
        Err(e) => panic!("{}", e.message()),
    }
}

/// `(module (func (export "main") (result i32) i32.const 42))`
fn minimal_wasm() -> Vec<u8> {
    vec![
        0x00, 0x61, 0x73, 0x6d, // magic
        0x01, 0x00, 0x00, 0x00, // version
        0x01, 0x05, 0x01, 0x60, 0x00, 0x01, 0x7f, // type
        0x03, 0x02, 0x01, 0x00, // function
        0x07, 0x08, 0x01, 0x04, 0x6d, 0x61, 0x69, 0x6e, 0x00, 0x00, // export
        0x0a, 0x06, 0x01, 0x04, 0x00, 0x41, 0x2a, 0x0b, // code
    ]
}

/// Runs a program without host functions.
fn run(rt: &ComRuntime, wasm: &[u8], entry: &str) -> AgentRun<i32> {
    let compiled = match rt.compile(wasm) {
        Ok(compiled) => compiled,
        Err(e) => return AgentRun::NotCompiled(e),
    };
    let mut store = wasmtime::Store::new(rt.engine(), ());
    if let Err(e) = store.set_fuel(rt.fuel_limit()) {
        return AgentRun::NotFueled(e.to_string());
    }
    let instance = match wasmtime::Instance::new(&mut store, compiled.module(), &[]) {
        Ok(instance) => instance,
        Err(e) => return AgentRun::NotInstantiated(e.to_string()),
    };
    let func = match instance.get_func(&mut store, entry) {
        Some(func) => func,
        None => return AgentRun::NoEntryPoint,
    };
    let mut results = vec![wasmtime::Val::I32(0)];
    match func.call(&mut store, &[], &mut results) {
        Ok(()) => AgentRun::Returned {
            values: results.iter().map(|v| v.unwrap_i32()).collect(),
            fuel_left: store.get_fuel().unwrap_or(0),
        },
        Err(e) => AgentRun::Failed {
            message: format!("{:#}", e),
            fuel_left: store.get_fuel().unwrap_or(0),
        },
    }
}

#[test]
fn runtime_construction_succeeds() {
    let rt = ComRuntime::new(1_000_000);
    assert!(rt.is_ok());
}

#[test]
fn default_fuel_limit_is_set() {
    match ComRuntime::with_default_fuel() {
        Ok(rt) => assert_eq!(rt.fuel_limit(), DEFAULT_FUEL_LIMIT),
        Err(e) => panic!("{}", e.message()),
    }
}

#[test]
fn agents_consume_fuel() {
    assert!(ComRuntime::engine_settings().consume_fuel);
    let rt = runtime(1000);
    let mut store = wasmtime::Store::new(rt.engine(), ());
    assert!(store.set_fuel(rt.fuel_limit()).is_ok(), "fuel is only taken by an engine that meters it");
}

#[test]
fn execute_minimal_wasm() {
    let rt = runtime(100_000);
    let wasm = minimal_wasm();
    assert!(rt.compile(&wasm).is_ok());
    let outcome = run(&rt, &wasm, "main");
    match rt.execute_agent("main", outcome) {
        Ok(vals) => {
            assert_eq!(vals.len(), 1);
            assert_eq!(vals[0], 42);
        }
        Err(e) => panic!("unexpected error: {}", e.message()),
    }
}

#[test]
fn com_runtime_execute_with_host_state() {
    let rt = runtime(100_000);
    let outcome = run(&rt, &minimal_wasm(), "main");
    match rt.execute_agent("main", outcome) {
        Ok(result) => assert_eq!(result, vec![42]),
        Err(e) => panic!("unexpected error: {}", e.message()),
    }
}

#[test]
fn missing_entry_point_returns_error() {
    let rt = runtime(100_000);
    let outcome = run(&rt, &minimal_wasm(), "nonexistent");
    match rt.execute_agent("nonexistent", outcome) {
        Err(ComError::EntryPointNotFound(name)) => assert_eq!(name, "nonexistent"),
        other => panic!("unexpected result: {:?}", other),
    }
}

/// `(module (func (export "main") (result i32) (loop br 0) i32.const 1))`
fn endless_wasm() -> Vec<u8> {
    vec![
        0x00, 0x61, 0x73, 0x6d, 0x01, 0x00, 0x00, 0x00, 0x01, 0x05, 0x01, 0x60, 0x00, 0x01, 0x7f,
        0x03, 0x02, 0x01, 0x00, 0x07, 0x08, 0x01, 0x04, 0x6d, 0x61, 0x69, 0x6e, 0x00, 0x00, 0x0a,
        0x0b, 0x01, 0x09, 0x00, 0x03, 0x40, 0x0c, 0x00, 0x0b, 0x41, 0x01, 0x0b,
    ]
}

#[test]
fn endless_programs_run_out_of_fuel() {
    let rt = runtime(10_000);
    let outcome = run(&rt, &endless_wasm(), "main");
    match rt.execute_agent("main", outcome) {
        Err(ComError::FuelExhausted { consumed, limit }) => {
            assert_eq!(limit, 10_000);
            assert!(consumed <= limit && consumed > 9_000);
        }
        other => panic!("unexpected result: {:?}", other),
    }
}

#[test]
fn runs_fail_as_their_step_does() {
    let rt = runtime(100);
    let failed: AgentRun<i32> = 
        AgentRun::NotCompiled(ComError::WasmCompilationFailed("bad".to_string()));
    assert_eq!(
        rt.execute_agent("f", failed),
        Err(ComError::WasmCompilationFailed("bad".to_string()))
    );
    let failed: AgentRun<i32> = AgentRun::NotFueled("dry".to_string());
    assert_eq!(
        rt.execute_agent("f", failed),
        Err(ComError::RuntimeConfigError("dry".to_string()))
    );
    let failed: AgentRun<i32> = AgentRun::NotInstantiated("import".to_string());
    assert_eq!(rt.execute_agent("f", failed), Err(ComError::Trap("import".to_string())));
    let failed: AgentRun<i32> =
        AgentRun::Failed { message: "unreachable".to_string(), fuel_left: 40 };
    assert_eq!(rt.execute_agent("f", failed), Err(ComError::Trap("unreachable".to_string())));
    let failed: AgentRun<i32> =
        AgentRun::Failed { message: "out of Fuel".to_string(), fuel_left: 40 };
    assert_eq!(
        rt.execute_agent("f", failed),
        Err(ComError::FuelExhausted { consumed: 60, limit: 100 })
    );
}

// Scheduler

fn make_scheduler() -> ProgramScheduler {
    ProgramScheduler::new(runtime(1_000_000))
}

#[test]
fn load_transitions_to_loaded_state() {
    let mut sched = make_scheduler();
    let id = cid(0x01);
    let wasm = minimal_wasm();
    match sched.load_program(&id, &wasm, 0) {
        Ok(()) => {
            assert!(!sched.is_running(&id));
            assert_eq!(sched.program_count(), 1);
        }
        Err(e) => panic!("unexpected error: {}", e.message()),
    }
}

#[test]
fn magic_bytes_alone_do_not_compile() {
    let rt = runtime(1000);
    for bytes in [&b"\0asm"[..], &b"\0asm\x01\0\0\0junk"[..], &b"(module)"[..], &b""[..]] {
        assert!(matches!(rt.compile(bytes), Err(ComError::WasmCompilationFailed(_))));
        let run: AgentRun<i32> = match rt.compile(bytes) {
            Ok(_) => panic!("compiled"),
            Err(e) => AgentRun::NotCompiled(e),
        };
        assert!(matches!(
            rt.execute_agent("main", run),
            Err(ComError::WasmCompilationFailed(_))
        ));
    }
    let mut sched = make_scheduler();
    assert!(sched.load_program(&cid(7), b"\0asm", 0).is_err());
    assert!(sched.module(&cid(7)).is_none());
}

#[test]
fn loaded_programs_are_compiled_and_run() {
    let mut sched = make_scheduler();
    let id = cid(0x08);
    assert!(sched.module(&id).is_none());
    assert!(sched.load_program(&id, &minimal_wasm(), 0).is_ok());
    assert!(sched.start_program(&id, 1).is_ok());
    let module = match sched.module(&id) {
        Some(module) => module.module(),
        None => panic!("not compiled"),
    };
    let rt = sched.runtime();
    let mut store = wasmtime::Store::new(rt.engine(), ());
    store.set_fuel(rt.fuel_limit()).unwrap();
    let instance = wasmtime::Instance::new(&mut store, module, &[]).unwrap();
    let main = instance.get_typed_func::<(), i32>(&mut store, "main").unwrap();
    assert_eq!(main.call(&mut store, ()).unwrap(), 42);
}

#[test]
fn junk_is_not_loaded() {
    let mut sched = make_scheduler();
    assert!(matches!(
        sched.load_program(&cid(0x01), b"not a program", 0),
        Err(ComError::WasmCompilationFailed(_))
    ));
    assert_eq!(sched.program_count(), 0);
}

#[test]
fn start_program_not_found() {
    let mut sched = make_scheduler();
    let unknown = cid(0xAA);
    assert!(matches!(sched.start_program(&unknown, 0), Err(ComError::ProgramNotFound(_))));
}

#[test]
fn full_lifecycle() {
    let mut sched = make_scheduler();
    let id = cid(0x02);
    let wasm = minimal_wasm();

    assert!(sched.load_program(&id, &wasm, 0).is_ok());

    assert!(sched.start_program(&id, 1).is_ok());
    assert!(sched.is_running(&id));

    assert!(sched.stop_program(&id, "test complete").is_ok());
    assert!(!sched.is_running(&id));
    assert!(matches!(sched.state(&id), Some(ProgramState::Stopped { .. })));
}

#[test]
fn only_loaded_programs_start() {
    let mut sched = make_scheduler();
    let id = cid(0x04);
    let wasm = minimal_wasm();
    assert!(sched.load_program(&id, &wasm, 0).is_ok());
    assert!(sched.start_program(&id, 1).is_ok());
    assert!(matches!(
        sched.start_program(&id, 2),
        Err(ComError::SchedulerError(why)) if why.ends_with("is already running")
    ));
    assert!(sched.stop_program(&id, "done").is_ok());
    assert!(matches!(
        sched.start_program(&id, 3),
        Err(ComError::SchedulerError(why)) if why.ends_with("is not loaded")
    ));
    assert!(matches!(sched.state(&id), Some(ProgramState::Stopped { .. })));

    assert!(sched.load_program(&id, &wasm, 4).is_ok());
    assert!(sched.start_program(&id, 5).is_ok());
    assert!(sched.is_running(&id));
}

#[test]
fn list_programs_sorted() {
    let mut sched = make_scheduler();
    let wasm = minimal_wasm();
    let _ = sched.load_program(&cid(0x05), &wasm, 0);
    let _ = sched.load_program(&cid(0x01), &wasm, 0);
    let _ = sched.load_program(&cid(0x03), &wasm, 0);

    let programs = sched.list_programs();
    let cids: Vec<Cid> = programs.iter().map(|(c, _)| *c).collect();
    let mut sorted = cids.clone();
    sorted.sort_by_key(|c| *c.as_bytes());
    assert_eq!(cids, sorted, "list_programs must be sorted by CID bytes");
    assert_eq!(cids.len(), 3);
}

#[test]
fn stop_unknown_program_returns_error() {
    let mut sched = make_scheduler();
    assert!(matches!(
        sched.stop_program(&cid(0xBB), "force"),
        Err(ComError::ProgramNotFound(_))
    ));
}

// Host functions

#[test]
fn all_host_functions_register_without_error() {
    let names = HostFunctions::names();
    assert_eq!(
        names,
        vec![
            "craft_store_get",
            "craft_store_put",
            "craft_sql_query",
            "craft_sign",
            "craft_read_result",
            "craft_log",
        ]
    );
}

#[test]
fn duplicate_registration_returns_error() {
    let engine = wasmtime::Engine::default();
    let mut linker: wasmtime::Linker<()> = wasmtime::Linker::new(&engine);
    for name in HostFunctions::names() {
        assert!(linker.func_wrap(craftec::com::host::HOST_MODULE, name, || {}).is_ok());
    }
    for name in HostFunctions::names() {
        assert!(
            linker.func_wrap(craftec::com::host::HOST_MODULE, name, || {}).is_err(),
            "duplicate registration must be detected"
        );
    }
}

#[test]
fn places_outside_the_memory_are_refused() {
    let memory = vec![7u8; 64];
    assert_eq!(HostFunctions::begin_store_get(None, 0, 32), Err(-3));
    assert_eq!(HostFunctions::begin_store_get(Some(&memory), 40, 32), Err(-2));
    assert_eq!(HostFunctions::begin_store_get(Some(&memory), -1, 32), Err(-2));
    assert_eq!(
        HostFunctions::begin_store_get(Some(&memory), 0, 32),
        Ok(Cid::from_bytes([7u8; 32]))
    );
    assert!(HostFunctions::begin_store_get(Some(&memory), 0, 31).is_err());
    assert_eq!(HostFunctions::begin_store_put(Some(&memory), 60, 4), Ok(vec![7u8; 4]));
    assert_eq!(HostFunctions::begin_store_put(Some(&memory), 61, 4), Err(-2));
}

#[test]
fn queries_are_read_as_text() {
    let memory = b"SELECT 1\xff".to_vec();
    assert_eq!(
        HostFunctions::begin_sql_query(Some(&memory), 0, 8, true),
        Ok("SELECT 1".to_string())
    );
    assert!(HostFunctions::begin_sql_query(Some(&memory), 0, 9, true).is_err());
    assert!(HostFunctions::begin_sql_query(Some(&memory), 0, 8, false).is_err());
}

#[test]
fn results_are_read_back() {
    let mut state = HostState::new();
    assert_eq!(state.finish_store_get(Fetched::Found(vec![1, 2, 3, 4])), 4);
    assert_eq!(state.read_result(Some(100), 10, 1, 2), Ok((10, vec![2, 3])));
    assert!(state.read_result(None, 10, 1, 2).is_err());
    assert!(state.read_result(Some(100), 99, 0, 4).is_err());
    assert!(state.finish_store_get(Fetched::Missing) < 0);
    assert!(state.finish_store_get(Fetched::Failed) < 0);
    assert_eq!(state.finish_store_put(Some(cid(5))), 32);
    assert_eq!(state.read_result(Some(32), 0, 0, 32), Ok((0, vec![5u8; 32])));
    assert!(state.finish_store_put(None) < 0);
    assert_eq!(state.finish_sql_query(Queried::Rows(vec![9])), 1);
    assert!(state.finish_sql_query(Queried::NotEncoded) < 0);
    assert!(state.finish_sql_query(Queried::Refused) < 0);
}

#[test]
fn signatures_are_limited() {
    let keys = KeyStore::generate(String::new());
    let mut state = HostState::new();
    let memory = b"sign me".to_vec();
    for _ in 0..SIGN_RATE_LIMIT {
        assert_eq!(state.sign(&keys, Some(&memory), 0, 7), 64);
    }
    match state.read_result(Some(64), 0, 0, 64) {
        Ok((_, bytes)) => {
            let mut signature = [0u8; 64];
            signature.copy_from_slice(&bytes);
            assert!(verify_signature(b"sign me", &signature, &keys.node_id()));
        }
        Err(code) => panic!("no result: {}", code),
    }
    assert!(state.sign(&keys, Some(&memory), 0, 7) < 0);
}

#[test]
fn log_lines() {
    assert_eq!(HostFunctions::log_level(0), LogLevel::Error);
    assert_eq!(HostFunctions::log_level(2), LogLevel::Info);
    assert_eq!(HostFunctions::log_level(99), LogLevel::Trace);
    let memory = b"hello".to_vec();
    assert_eq!(HostFunctions::log_text(Some(&memory), 1, 3), "ell");
    assert_eq!(HostFunctions::log_text(Some(&memory), 1, 5), "<out-of-bounds>");
    assert_eq!(HostFunctions::log_text(Some(&memory), -1, 0), "<out-of-bounds>");
    assert_eq!(HostFunctions::log_text(None, 1, 5), "<no-memory>");
    let mixed = [b'a', 0xff, b'b'];
    assert_eq!(HostFunctions::log_text(Some(&mixed), 0, 3), "a\u{fffd}b");
}

#[test]
fn com_errors_in_words() {
    assert!(ComError::FuelExhausted { consumed: 7, limit: 9 }.message().contains('7'));
    assert!(ComError::ProgramNotFound(cid(1)).message().contains(&cid(1).to_hex()));
    assert!(ComError::Trap("t".into()).message().contains('t'));
    assert!(ComError::SchedulerError("busy".into()).message().contains("busy"));
    let e = ComError::HostFunctionError { function: "f1".into(), reason: "r1".into() };
    assert!(e.message().contains("f1") && e.message().contains("r1"));
}
