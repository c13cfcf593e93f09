//! The life cycle of programs: loaded, running, stopped.

use crate::com::error::ComError;
use crate::com::runtime::ComRuntime;
use crate::outside::hexadecimal;
use crate::outside::wasm;
use crate::outside::wasm::CompiledModule;
use crate::types::cid::Cid;
use crate::types::order;
use crate::types::table::KeyTable;
use crate::types::text;
use vstd::prelude::*;
use vstd::string::*;

verus! {

/// The state of a program.
#[derive(Debug)]
pub enum ProgramState {
    /// Loaded, not started.
    Loaded { wasm_cid: Cid, loaded_at: u64 },
    /// Running.
    Running { wasm_cid: Cid, started_at: u64 },
    /// Stopped, for a reason.
    Stopped { wasm_cid: Cid, reason: String },
}

/// The state of a program.
#[verifier::ext_equal]
pub enum ProgramView {
    /// Loaded, not started.
    Loaded { wasm_cid: Cid, loaded_at: u64 },
    /// Running.
    Running { wasm_cid: Cid, started_at: u64 },
    /// Stopped, for a reason.
    Stopped { wasm_cid: Cid, reason: Seq<char> },
}

impl View for ProgramState {
    type V = ProgramView;

    open spec fn view(&self) -> ProgramView {
        match self {
            ProgramState::Loaded { wasm_cid, loaded_at } => ProgramView::Loaded {
                wasm_cid: *wasm_cid,
                loaded_at: *loaded_at,
            },
            ProgramState::Running { wasm_cid, started_at } => ProgramView::Running {
                wasm_cid: *wasm_cid,
                started_at: *started_at,
            },
            ProgramState::Stopped { wasm_cid, reason } => ProgramView::Stopped {
                wasm_cid: *wasm_cid,
                reason: reason@,
            },
        }
    }
}

impl Clone for ProgramState {
    fn clone(&self) -> (copy: Self)
        ensures
            copy@ == self@,
    {
        match self {
            ProgramState::Loaded { wasm_cid, loaded_at } => ProgramState::Loaded {
                wasm_cid: *wasm_cid,
                loaded_at: *loaded_at,
            },
            ProgramState::Running { wasm_cid, started_at } => ProgramState::Running {
                wasm_cid: *wasm_cid,
                started_at: *started_at,
            },
            ProgramState::Stopped { wasm_cid, reason } => ProgramState::Stopped {
                wasm_cid: *wasm_cid,
                reason: String::from_str(reason.as_str()),
            },
        }
    }
}

impl ProgramView {
    /// The program.
    pub open spec fn program(&self) -> Cid {
        match self {
            ProgramView::Loaded { wasm_cid, .. } => *wasm_cid,
            ProgramView::Running { wasm_cid, .. } => *wasm_cid,
            ProgramView::Stopped { wasm_cid, .. } => *wasm_cid,
        }
    }
}

/// The time from one moment to another, zero where the first is the later one.
pub open spec fn elapsed(since: u64, now: u64) -> nat {
    if now >= since {
        (now - since) as nat
    } else {
        0
    }
}

impl ProgramState {
    /// The program.
    pub fn wasm_cid(&self) -> (cid: Cid)
        ensures
            cid == self@.program(),
    {
        match self {
            ProgramState::Loaded { wasm_cid, .. } => *wasm_cid,
            ProgramState::Running { wasm_cid, .. } => *wasm_cid,
            ProgramState::Stopped { wasm_cid, .. } => *wasm_cid,
        }
    }

    /// Whether the program is running.
    pub fn is_running(&self) -> (yes: bool)
        ensures
            yes == (self@ is Running),
    {
        match self {
            ProgramState::Running { .. } => true,
            _ => false,
        }
    }

    /// The state in a word.
    pub fn label(&self) -> (word: &'static str)
        ensures
            word@ == (match self@ {
                ProgramView::Loaded { .. } => "loaded"@,
                ProgramView::Running { .. } => "running"@,
                ProgramView::Stopped { .. } => "stopped"@,
            }),
    {
        match self {
            ProgramState::Loaded { .. } => "loaded",
            ProgramState::Running { .. } => "running",
            ProgramState::Stopped { .. } => "stopped",
        }
    }

    /// The state in words, at a given time.
    pub fn text(&self, now: u64) -> (words: String)
        ensures
            words@ == (match self@ {
                ProgramView::Loaded { wasm_cid, loaded_at } => "Loaded(wasm="@
                    + hexadecimal::hex_text(wasm_cid@) + ", age="@ + text::decimal(
                    elapsed(loaded_at, now),
                ) + "ms)"@,
                ProgramView::Running { wasm_cid, started_at } => "Running(wasm="@
                    + hexadecimal::hex_text(wasm_cid@) + ", uptime="@ + text::decimal(
                    elapsed(started_at, now),
                ) + "ms)"@,
                ProgramView::Stopped { wasm_cid, reason } => "Stopped(wasm="@
                    + hexadecimal::hex_text(wasm_cid@) + ", reason="@ + reason + ")"@,
            }),
    {
        let cid = self.wasm_cid();
        let hex = cid.to_hex();
        match self {
            ProgramState::Loaded { loaded_at, .. } => {
                let mut words = text::join3("Loaded(wasm=", hex.as_str(), ", age=");
                text::push_decimal(&mut words, now.saturating_sub(*loaded_at));
                words.append("ms)");
                words
            },
            ProgramState::Running { started_at, .. } => {
                let mut words = text::join3("Running(wasm=", hex.as_str(), ", uptime=");
                text::push_decimal(&mut words, now.saturating_sub(*started_at));
                words.append("ms)");
                words
            },
            ProgramState::Stopped { reason, .. } => {
                let mut words = text::join3("Stopped(wasm=", hex.as_str(), ", reason=");
                words.append(reason.as_str());
                words.append(")");
                words
            },
        }
    }
}

/// Keeps the states of programs.
pub struct ProgramScheduler {
    programs: KeyTable<ProgramState>,
    modules: KeyTable<CompiledModule>,
    runtime: ComRuntime,
}

impl ProgramScheduler {
    /// The state of each program.
    pub closed spec fn states(&self) -> Map<Seq<u8>, ProgramView> {
        self.programs@.map_values(|s: ProgramState| s@)
    }

    /// What was compiled of each program when it was last loaded.
    pub closed spec fn modules(&self) -> Map<Seq<u8>, CompiledModule> {
        self.modules@
    }

    /// The runtime.
    pub closed spec fn engine(&self) -> ComRuntime {
        self.runtime
    }

    /// Each program is listed under its own identifier, and was compiled.
    pub closed spec fn wf(&self) -> bool {
        &&& self.programs.wf()
        &&& self.modules.wf()
        &&& self.modules@.dom() == self.programs@.dom()
        &&& forall|k: Seq<u8>| #[trigger]
            self.programs@.contains_key(k) ==> self.programs@[k]@.program()@ == k
    }

    /// Each program is listed under its own identifier.
    pub proof fn lemma_own_identifier(&self, cid: Seq<u8>)
        requires
            self.wf(),
            self.states().contains_key(cid),
        ensures
            self.states()[cid].program()@ == cid,
    {
        assert(self.programs@.contains_key(cid));
    }

    /// There is no program in whatever state that was not compiled.
    pub proof fn lemma_compiled(&self, cid: Seq<u8>)
        requires
            self.wf(),
        ensures
            self.states().contains_key(cid) <==> self.modules().contains_key(cid),
    {
        assert(self.programs@.dom().contains(cid) <==> self.modules@.dom().contains(cid));
    }

    /// No programs.
    pub fn new(runtime: ComRuntime) -> (scheduler: ProgramScheduler)
        ensures
            scheduler.wf(),
            scheduler.states() == Map::<Seq<u8>, ProgramView>::empty(),
            scheduler.modules() == Map::<Seq<u8>, CompiledModule>::empty(),
            scheduler.engine() == runtime,
    {
        let scheduler = ProgramScheduler {
            programs: KeyTable::new(),
            modules: KeyTable::new(),
            runtime,
        };
        assert(scheduler.states() =~= Map::<Seq<u8>, ProgramView>::empty());
        scheduler
    }

    /// Loads a program, provided that the engine of the runtime compiles its bytes. Bytes
    /// that do not begin like a program are refused; of others it is up to the engine.
    pub fn load_program(&mut self, wasm_cid: &Cid, wasm_bytes: &[u8], now: u64) -> (result: Result<
        (),
        ComError,
    >)
        requires
            old(self).wf(),
        ensures
            final(self).wf(),
            final(self).engine() == old(self).engine(),
            match result {
                Ok(_) => {
                    &&& wasm::has_magic(wasm_bytes@)
                    &&& final(self).states() == old(self).states().insert(
                        wasm_cid@,
                        ProgramView::Loaded { wasm_cid: *wasm_cid, loaded_at: now },
                    )
                    &&& final(self).modules().contains_key(wasm_cid@)
                    &&& final(self).modules()[wasm_cid@].source() == wasm_bytes@
                    &&& final(self).modules()[wasm_cid@].compiled_by() == old(self).engine().inner()
                    &&& final(self).modules().remove(wasm_cid@) == old(self).modules().remove(
                        wasm_cid@,
                    )
                },
                Err(e) => {
                    &&& e is WasmCompilationFailed
                    &&& final(self).states() == old(self).states()
                    &&& final(self).modules() == old(self).modules()
                },
            },
    {
        let compiled = self.runtime.compile(wasm_bytes);
        let result = self.record_load(wasm_cid, compiled, now);
        proof {
            assert(self.modules().remove(wasm_cid@) =~= old(self).modules().remove(wasm_cid@));
        }
        result
    }

    /// Loads a program, given what came of compiling it.
    pub fn record_load(
        &mut self,
        wasm_cid: &Cid,
        compiled: Result<CompiledModule, ComError>,
        now: u64,
    ) -> (result: Result<(), ComError>)
        requires
            old(self).wf(),
        ensures
            final(self).wf(),
            final(self).engine() == old(self).engine(),
            result is Ok <==> compiled is Ok,
            compiled matches Err(e) ==> result == Err::<(), ComError>(e),
            final(self).modules() == (match compiled {
                Ok(m) => old(self).modules().insert(wasm_cid@, m),
                Err(_) => old(self).modules(),
            }),
            final(self).states() == (match compiled {
                Ok(_) => old(self).states().insert(
                    wasm_cid@,
                    ProgramView::Loaded { wasm_cid: *wasm_cid, loaded_at: now },
                ),
                Err(_) => old(self).states(),
            }),
    {
        match compiled {
            Ok(m) => {
                let state = ProgramState::Loaded { wasm_cid: *wasm_cid, loaded_at: now };
                self.programs.set(wasm_cid.bytes, state);
                self.modules.set(wasm_cid.bytes, m);
                proof {
                    assert(self.modules@.dom() =~= self.programs@.dom());
                    assert(self.states() =~= old(self).states().insert(wasm_cid@, state@));
                }
                Ok(())
            },
            Err(e) => Err(e),
        }
    }

    /// Starts a loaded program. One that runs already, or that was stopped, is not started; a
    /// stopped one can be loaded again.
    pub fn start_program(&mut self, wasm_cid: &Cid, now: u64) -> (result: Result<(), ComError>)
        requires
            old(self).wf(),
        ensures
            final(self).wf(),
            final(self).engine() == old(self).engine(),
            final(self).modules() == old(self).modules(),
            if !old(self).states().contains_key(wasm_cid@) {
                &&& result == Err::<(), ComError>(ComError::ProgramNotFound(*wasm_cid))
                &&& final(self).states() == old(self).states()
            } else if old(self).states()[wasm_cid@] is Running {
                &&& result matches Err(ComError::SchedulerError(why)) && why@ == "program "@
                    + hexadecimal::hex_text(wasm_cid@) + " is already running"@
                &&& final(self).states() == old(self).states()
            } else if old(self).states()[wasm_cid@] is Stopped {
                &&& result matches Err(ComError::SchedulerError(why)) && why@ == "program "@
                    + hexadecimal::hex_text(wasm_cid@) + " is not loaded"@
                &&& final(self).states() == old(self).states()
            } else {
                &&& old(self).states()[wasm_cid@] is Loaded
                &&& result is Ok
                &&& final(self).states() == old(self).states().insert(
                    wasm_cid@,
                    ProgramView::Running {
                        wasm_cid: old(self).states()[wasm_cid@].program(),
                        started_at: now,
                    },
                )
            },
    {
        let cid: Cid = match self.programs.get(wasm_cid.as_bytes()) {
            None => {
                return Err(ComError::ProgramNotFound(*wasm_cid));
            },
            Some(state) => {
                let why = match state {
                    ProgramState::Loaded { .. } => None,
                    ProgramState::Running { .. } => Some(" is already running"),
                    ProgramState::Stopped { .. } => Some(" is not loaded"),
                };
                if let Some(why) = why {
                    let hex = wasm_cid.to_hex();
                    return Err(
                        ComError::SchedulerError(text::join3("program ", hex.as_str(), why)),
                    );
                }
                state.wasm_cid()
            },
        };
        let state = ProgramState::Running { wasm_cid: cid, started_at: now };
        self.programs.set(wasm_cid.bytes, state);
        proof {
            assert(self.modules@.dom() =~= self.programs@.dom());
            assert(self.states() =~= old(self).states().insert(wasm_cid@, state@));
        }
        Ok(())
    }

    /// Stops a program, for a reason.
    pub fn stop_program(&mut self, wasm_cid: &Cid, reason: &str) -> (result: Result<(), ComError>)
        requires
            old(self).wf(),
        ensures
            final(self).wf(),
            final(self).engine() == old(self).engine(),
            final(self).modules() == old(self).modules(),
            if !old(self).states().contains_key(wasm_cid@) {
                &&& result == Err::<(), ComError>(ComError::ProgramNotFound(*wasm_cid))
                &&& final(self).states() == old(self).states()
            } else {
                &&& result is Ok
                &&& final(self).states() == old(self).states().insert(
                    wasm_cid@,
                    ProgramView::Stopped {
                        wasm_cid: old(self).states()[wasm_cid@].program(),
                        reason: reason@,
                    },
                )
            },
    {
        let cid: Cid = match self.programs.get(wasm_cid.as_bytes()) {
            None => {
                return Err(ComError::ProgramNotFound(*wasm_cid));
            },
            Some(state) => state.wasm_cid(),
        };
        let state = ProgramState::Stopped { wasm_cid: cid, reason: String::from_str(reason) };
        self.programs.set(wasm_cid.bytes, state);
        proof {
            assert(self.modules@.dom() =~= self.programs@.dom());
            assert(self.states() =~= old(self).states().insert(wasm_cid@, state@));
        }
        Ok(())
    }

    /// All programs with their states, in ascending order.
    pub fn list_programs(&self) -> (list: Vec<(Cid, ProgramState)>)
        requires
            self.wf(),
        ensures
            list@.map_values(|p: (Cid, ProgramState)| p.0) == order::cid_list(self.states().dom()),
            order::ascending(order::cid_list(self.states().dom())),
            forall|i: int|
                0 <= i < list@.len() ==> self.states().contains_key((#[trigger] list@[i]).0@)
                    && list@[i].1@ == self.states()[list@[i].0@],
    {
        proof {
            assert(self.states().dom() =~= self.programs@.dom());
        }
        let cids = order::sorted_keys(&self.programs);
        let mut list: Vec<(Cid, ProgramState)> = Vec::new();
        let mut i: usize = 0;
        while i < cids.len()
            invariant
                i <= cids@.len(),
                self.wf(),
                order::cid_set(cids@) == self.programs@.dom(),
                list@.len() == i,
                forall|j: int|
                    0 <= j < i ==> (#[trigger] list@[j]).0 == cids@[j]
                        && self.states().contains_key(list@[j].0@) && list@[j].1@
                        == self.states()[list@[j].0@],
            decreases cids@.len() - i,
        {
            let cid: Cid = cids[i];
            proof {
                assert(order::cid_set(cids@).contains(cids@[i as int]@));
            }
            if let Some(state) = self.programs.get(cid.as_bytes()) {
                list.push((cid, state.clone()));
            }
            i = i + 1;
        }
        proof {
            assert(list@.map_values(|p: (Cid, ProgramState)| p.0) =~= cids@);
        }
        list
    }

    /// Whether a program is running.
    pub fn is_running(&self, wasm_cid: &Cid) -> (yes: bool)
        requires
            self.wf(),
        ensures
            yes == (self.states().contains_key(wasm_cid@)
                && self.states()[wasm_cid@] is Running),
    {
        match self.programs.get(wasm_cid.as_bytes()) {
            Some(state) => state.is_running(),
            None => false,
        }
    }

    /// The state of a program.
    pub fn state(&self, wasm_cid: &Cid) -> (state: Option<ProgramState>)
        requires
            self.wf(),
        ensures
            match state {
                Some(s) => self.states().contains_key(wasm_cid@) && s@
                    == self.states()[wasm_cid@],
                None => !self.states().contains_key(wasm_cid@),
            },
    {
        match self.programs.get(wasm_cid.as_bytes()) {
            Some(state) => Some(state.clone()),
            None => None,
        }
    }

    /// What was compiled of a program when it was last loaded.
    pub fn module(&self, wasm_cid: &Cid) -> (module: Option<&CompiledModule>)
        requires
            self.wf(),
        ensures
            match module {
                Some(m) => self.modules().contains_key(wasm_cid@) && *m
                    == self.modules()[wasm_cid@],
                None => !self.modules().contains_key(wasm_cid@),
            },
    {
        self.modules.get(wasm_cid.as_bytes())
    }

    /// The number of programs.
    pub fn program_count(&self) -> (n: usize)
        requires
            self.wf(),
        ensures
            n == self.states().dom().len(),
    {
        proof {
            assert(self.states().dom() =~= self.programs@.dom());
        }
        self.programs.len()
    }

    /// The runtime.
    pub fn runtime(&self) -> (runtime: &ComRuntime)
        ensures
            *runtime == self.engine(),
    {
        &self.runtime
    }
}

}
