//! Agents and their kinds.

use crate::outside::hexadecimal;
use crate::types::cid::Cid;
use crate::types::text;
use vstd::prelude::*;
use vstd::string::*;

verus! {

/// What an agent does.
#[derive(Clone, Copy, Debug, PartialEq, Eq)]
pub enum AgentKind {
    /// Evicts objects that are not used.
    LocalEviction,
    /// Scores peers.
    ReputationScoring,
    /// Spreads requests over peers.
    LoadBalancing,
    /// Watches over the redundancy of contents.
    DegradationPolicy,
    /// Applies schema migrations.
    SchemaMigration,
    /// Anything else, by the identifier of its program.
    Custom(Cid),
}

impl AgentKind {
    /// The kind in words.
    pub open spec fn words(&self) -> Seq<char> {
        match self {
            AgentKind::LocalEviction => "LocalEviction"@,
            AgentKind::ReputationScoring => "ReputationScoring"@,
            AgentKind::LoadBalancing => "LoadBalancing"@,
            AgentKind::DegradationPolicy => "DegradationPolicy"@,
            AgentKind::SchemaMigration => "SchemaMigration"@,
            AgentKind::Custom(cid) => "Custom("@ + hexadecimal::hex_text(cid@) + ")"@,
        }
    }

    /// The kind in words.
    pub fn text(&self) -> (words: String)
        ensures
            words@ == self.words(),
    {
        match self {
            AgentKind::LocalEviction => String::from_str("LocalEviction"),
            AgentKind::ReputationScoring => String::from_str("ReputationScoring"),
            AgentKind::LoadBalancing => String::from_str("LoadBalancing"),
            AgentKind::DegradationPolicy => String::from_str("DegradationPolicy"),
            AgentKind::SchemaMigration => String::from_str("SchemaMigration"),
            AgentKind::Custom(cid) => {
                let hex = cid.to_hex();
                text::join3("Custom(", hex.as_str(), ")")
            },
        }
    }
}

/// An agent.
#[derive(Debug)]
pub struct Agent {
    /// The identifier of its program.
    pub wasm_cid: Cid,
    /// Its name.
    pub name: String,
    /// What it does.
    pub kind: AgentKind,
}

impl Agent {
    /// An agent.
    pub fn new(wasm_cid: Cid, name: String, kind: AgentKind) -> (agent: Agent)
        ensures
            agent == (Agent { wasm_cid, name, kind }),
    {
        Agent { wasm_cid, name, kind }
    }

    /// Whether the agent is the built-in one of a kind, named after it.
    pub open spec fn is_built_in(&self, wasm_cid: Cid, kind: AgentKind) -> bool {
        self.wasm_cid == wasm_cid && self.kind == kind && self.name@ == kind.words()
    }

    /// The agent that evicts objects.
    pub fn local_eviction(wasm_cid: Cid) -> (agent: Agent)
        ensures
            agent.is_built_in(wasm_cid, AgentKind::LocalEviction),
    {
        Agent::new(wasm_cid, String::from_str("LocalEviction"), AgentKind::LocalEviction)
    }

    /// The agent that scores peers.
    pub fn reputation_scoring(wasm_cid: Cid) -> (agent: Agent)
        ensures
            agent.is_built_in(wasm_cid, AgentKind::ReputationScoring),
    {
        Agent::new(wasm_cid, String::from_str("ReputationScoring"), AgentKind::ReputationScoring)
    }

    /// The agent that spreads requests.
    pub fn load_balancing(wasm_cid: Cid) -> (agent: Agent)
        ensures
            agent.is_built_in(wasm_cid, AgentKind::LoadBalancing),
    {
        Agent::new(wasm_cid, String::from_str("LoadBalancing"), AgentKind::LoadBalancing)
    }

    /// The agent that watches over redundancy.
    pub fn degradation_policy(wasm_cid: Cid) -> (agent: Agent)
        ensures
            agent.is_built_in(wasm_cid, AgentKind::DegradationPolicy),
    {
        Agent::new(wasm_cid, String::from_str("DegradationPolicy"), AgentKind::DegradationPolicy)
    }

    /// The agent that applies migrations.
    pub fn schema_migration(wasm_cid: Cid) -> (agent: Agent)
        ensures
            agent.is_built_in(wasm_cid, AgentKind::SchemaMigration),
    {
        Agent::new(wasm_cid, String::from_str("SchemaMigration"), AgentKind::SchemaMigration)
    }

    /// The agent in words.
    pub fn text(&self) -> (words: String)
        ensures
            words@ == "Agent("@ + self.name@ + ", wasm="@ + hexadecimal::hex_text(self.wasm_cid@)
                + ")"@,
    {
        let hex = self.wasm_cid.to_hex();
        let mut words = text::join3("Agent(", self.name.as_str(), ", wasm=");
        words.append(hex.as_str());
        words.append(")");
        words
    }
}

}
