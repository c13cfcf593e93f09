//! What places in memory, agents and their times promise.

use crate::com::agent::Agent;
use crate::com::agent::AgentKind;
use crate::com::error::ComError;
use crate::com::host;
use crate::com::runtime;
use crate::com::scheduler;
use crate::com::scheduler::ProgramState;
use crate::outside::hexadecimal;
use crate::types;
use crate::types::cid::Cid;
use crate::types::text;
use vstd::prelude::*;

verus! {

/// A place lies within the memory exactly if its bytes do, from the first to the last; an
/// empty place may begin where the memory ends.
pub proof fn lemma_within(memory_len: nat, ptr: i32, len: i32)
    ensures
        host::within(memory_len, ptr, len) ==> ptr >= 0 && len >= 0,
        len > 0 ==> (host::within(memory_len, ptr, len) <==> 0 <= ptr < memory_len && ptr + len - 1
            < memory_len),
        len == 0 ==> (host::within(memory_len, ptr, len) <==> 0 <= ptr <= memory_len),
{
}

/// The bytes at a place are as many as were asked for, in their order.
pub proof fn lemma_bytes_at(memory: Seq<u8>, ptr: i32, len: i32, i: int)
    requires
        host::within(memory.len(), ptr, len),
    ensures
        host::bytes_at(memory, ptr, len).len() == len,
        0 <= i < len ==> host::bytes_at(memory, ptr, len)[i] == memory[ptr + i],
{
}

/// A place has a negative code exactly if it cannot be read, and another one where there is no
/// memory at all.
pub proof fn lemma_place_code(memory: Seq<u8>, ptr: i32, len: i32)
    ensures
        host::place_code(None, ptr, len) == -3,
        0 <= ptr && 0 <= len && ptr + len <= memory.len() ==> host::place_code(
            Some(memory),
            ptr,
            len,
        ) == 0,
        ptr < 0 || len < 0 || ptr + len > memory.len() ==> host::place_code(
            Some(memory),
            ptr,
            len,
        ) == -2,
{
}

/// There is a memory to see exactly if there is one.
pub proof fn lemma_memory_view(memory: &[u8])
    ensures
        host::memory_view(None) is None,
        host::memory_view(Some(memory)) == Some(memory@),
{
}

/// A message that speaks of fuel anywhere, with a small or a capital letter, is about fuel, and
/// no other is.
pub proof fn lemma_about_fuel(message: Seq<char>, at: int)
    ensures
        0 <= at && at + 4 <= message.len() && (message[at] == 'f' || message[at] == 'F') && message[at
            + 1] == 'u' && message[at + 2] == 'e' && message[at + 3] == 'l' ==> runtime::about_fuel(
            message,
        ),
        runtime::about_fuel(message) ==> exists|i: int|
            0 <= i && i + 4 <= message.len() && (#[trigger] message[i] == 'f' || message[i] == 'F')
                && message[i + 1] == 'u' && message[i + 2] == 'e' && message[i + 3] == 'l',
{
    reveal_strlit("fuel");
    reveal_strlit("Fuel");
    if 0 <= at && at + 4 <= message.len() && message[at + 1] == 'u' && message[at + 2] == 'e'
        && message[at + 3] == 'l' {
        let found = message.subrange(at, at + 4);
        if message[at] == 'f' {
            assert(found =~= "fuel"@);
            assert(text::stands_at(message, "fuel"@, at));
        }
        if message[at] == 'F' {
            assert(found =~= "Fuel"@);
            assert(text::stands_at(message, "Fuel"@, at));
        }
    }
    if text::holds(message, "fuel"@) {
        let i = choose|i: int| #[trigger] text::stands_at(message, "fuel"@, i);
        lemma_four(message, "fuel"@, i);
        assert(message[i] == 'f');
    } else if text::holds(message, "Fuel"@) {
        let i = choose|i: int| #[trigger] text::stands_at(message, "Fuel"@, i);
        lemma_four(message, "Fuel"@, i);
        assert(message[i] == 'F');
    }
}

proof fn lemma_four(message: Seq<char>, word: Seq<char>, i: int)
    requires
        text::stands_at(message, word, i),
        word.len() == 4,
    ensures
        0 <= i && i + 4 <= message.len(),
        message[i] == word[0],
        message[i + 1] == word[1],
        message[i + 2] == word[2],
        message[i + 3] == word[3],
{
    let found = message.subrange(i, i + 4);
    assert(found[0] == message[i]);
    assert(found[1] == message[i + 1]);
    assert(found[2] == message[i + 2]);
    assert(found[3] == message[i + 3]);
}

/// A program is the same in every state.
pub proof fn lemma_program(cid: Cid, time: u64, reason: Seq<char>)
    ensures
        (scheduler::ProgramView::Loaded { wasm_cid: cid, loaded_at: time }).program() == cid,
        (scheduler::ProgramView::Running { wasm_cid: cid, started_at: time }).program() == cid,
        (scheduler::ProgramView::Stopped { wasm_cid: cid, reason }).program() == cid,
{
}

/// What is seen of a state is all of it: the program, the moment and the reason.
pub proof fn lemma_state_view(cid: Cid, time: u64, reason: String)
    ensures
        (ProgramState::Loaded { wasm_cid: cid, loaded_at: time })@ == (
        scheduler::ProgramView::Loaded { wasm_cid: cid, loaded_at: time }),
        (ProgramState::Running { wasm_cid: cid, started_at: time })@ == (
        scheduler::ProgramView::Running { wasm_cid: cid, started_at: time }),
        (ProgramState::Stopped { wasm_cid: cid, reason })@ == (scheduler::ProgramView::Stopped {
            wasm_cid: cid,
            reason: reason@,
        }),
{
}

/// Time goes by from its beginning on, and never backwards.
pub proof fn lemma_elapsed(since: u64, passed: u64, now: u64)
    ensures
        since + passed <= u64::MAX ==> scheduler::elapsed(since, (since + passed) as u64) == passed,
        now <= since ==> scheduler::elapsed(since, now) == 0,
{
}

/// Kinds of agents can be told by their words, and the programs of the custom ones as well.
pub proof fn lemma_kinds_told(a: AgentKind, b: AgentKind)
    requires
        a.words() == b.words(),
    ensures
        a is LocalEviction <==> b is LocalEviction,
        a is ReputationScoring <==> b is ReputationScoring,
        a is LoadBalancing <==> b is LoadBalancing,
        a is DegradationPolicy <==> b is DegradationPolicy,
        a is SchemaMigration <==> b is SchemaMigration,
        a is Custom && b is Custom ==> a->Custom_0@ == b->Custom_0@,
{
    reveal_strlit("LocalEviction");
    reveal_strlit("ReputationScoring");
    reveal_strlit("LoadBalancing");
    reveal_strlit("DegradationPolicy");
    reveal_strlit("SchemaMigration");
    reveal_strlit("Custom(");
    reveal_strlit(")");
    assert("LocalEviction"@[0] == 'L' && "LocalEviction"@[2] == 'c');
    assert("LoadBalancing"@[0] == 'L' && "LoadBalancing"@[2] == 'a');
    assert("ReputationScoring"@[0] == 'R');
    assert("DegradationPolicy"@[0] == 'D');
    assert("SchemaMigration"@[0] == 'S');
    assert("Custom("@[0] == 'C');
    assert(a.words()[0] == b.words()[0] && a.words()[2] == b.words()[2]);
    if a is Custom && b is Custom {
        let x = hexadecimal::hex_text(a->Custom_0@);
        let y = hexadecimal::hex_text(b->Custom_0@);
        assert(a.words().subrange(7, 7 + x.len() as int) =~= x);
        assert(b.words().subrange(7, 7 + y.len() as int) =~= y);
        assert(x =~= y);
        hexadecimal::lemma_hex_injective(a->Custom_0@, b->Custom_0@);
    }
}

/// A custom kind names its program in hexadecimal.
pub proof fn lemma_custom_named(cid: Cid)
    ensures
        text::holds(AgentKind::Custom(cid).words(), hexadecimal::hex_text(cid@)),
{
    let hex = hexadecimal::hex_text(cid@);
    crate::types::laws::lemma_holds(AgentKind::Custom(cid).words(), hex, "Custom("@, ")"@);
}

/// A built-in agent has the program and the kind that it was asked for, and the name of its
/// kind.
pub proof fn lemma_built_in(agent: Agent, wasm_cid: Cid, kind: AgentKind)
    ensures
        agent.is_built_in(wasm_cid, kind) ==> agent.wasm_cid == wasm_cid && agent.kind == kind
            && agent.name@ == agent.kind.words(),
{
}

/// What is told of an error holds all that the error carries.
pub proof fn lemma_error_told(e: ComError)
    ensures
        e matches ComError::WasmCompilationFailed(s) ==> text::holds(e.words(), s@),
        e matches ComError::SchedulerError(s) ==> text::holds(e.words(), s@),
        e matches ComError::RuntimeConfigError(s) ==> text::holds(e.words(), s@),
        e matches ComError::Trap(s) ==> text::holds(e.words(), s@),
        e matches ComError::FuelExhausted { consumed, limit } ==> text::holds(
            e.words(),
            text::decimal(consumed as nat),
        ) && text::holds(e.words(), text::decimal(limit as nat)),
        e matches ComError::HostFunctionError { function, reason } ==> text::holds(
            e.words(),
            function@,
        ) && text::holds(e.words(), reason@),
        e matches ComError::ProgramNotFound(cid) ==> text::holds(
            e.words(),
            hexadecimal::hex_text(cid@),
        ),
        e matches ComError::EntryPointNotFound(name) ==> text::holds(e.words(), name@),
        e matches ComError::SqlError(inner) ==> text::holds(e.words(), inner.words()),
{
    let none = Seq::<char>::empty();
    match e {
        ComError::WasmCompilationFailed(s) => {
            types::laws::lemma_parts_held("WASM compilation failed: "@, s@, none, none, none);
        },
        ComError::SchedulerError(s) => {
            types::laws::lemma_parts_held("scheduler error: "@, s@, none, none, none);
        },
        ComError::RuntimeConfigError(s) => {
            types::laws::lemma_parts_held("runtime configuration error: "@, s@, none, none, none);
        },
        ComError::Trap(s) => {
            types::laws::lemma_parts_held("WASM trap: "@, s@, none, none, none);
        },
        ComError::FuelExhausted { consumed, limit } => {
            types::laws::lemma_parts_held(
                "fuel exhausted after consuming "@,
                text::decimal(consumed as nat),
                " units (limit: "@,
                text::decimal(limit as nat),
                ")"@,
            );
        },
        ComError::HostFunctionError { function, reason } => {
            types::laws::lemma_parts_held(
                "host function '"@,
                function@,
                "' failed: "@,
                reason@,
                none,
            );
        },
        ComError::ProgramNotFound(cid) => {
            types::laws::lemma_parts_held(
                "program not found: "@,
                hexadecimal::hex_text(cid@),
                none,
                none,
                none,
            );
        },
        ComError::EntryPointNotFound(name) => {
            types::laws::lemma_parts_held(
                "entry point '"@,
                name@,
                "' not found in WASM module"@,
                none,
                none,
            );
        },
        ComError::SqlError(inner) => {
            types::laws::lemma_parts_held("CraftSQL error: "@, inner.words(), none, none, none);
        },
    }
}

}
