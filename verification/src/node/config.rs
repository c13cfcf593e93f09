//! The configuration of a node, and what the environment changes of it.

use crate::outside::json;
use crate::types::parse;
use vstd::prelude::*;
use vstd::string::*;

verus! {

/// The port on which a node listens where none is given.
pub const DEFAULT_LISTEN_PORT: u16 = 4433;

/// The configuration of a node.
#[derive(Debug)]
pub struct NodeConfig {
    /// Where the node keeps its files.
    pub data_dir: String,
    /// On which port it listens.
    pub listen_port: u16,
    /// Which peers it connects to first.
    pub bootstrap_peers: Vec<String>,
    /// How many seconds lie between two health scans.
    pub health_scan_cycle_secs: u64,
    /// How many bytes a page of the database has.
    pub page_size: usize,
    /// How many connections to peers it keeps.
    pub max_connections: usize,
}

/// What the environment sets.
#[derive(Debug)]
pub struct Overrides {
    /// `CRAFTEC_DATA_DIR`.
    pub data_dir: Option<String>,
    /// `CRAFTEC_LISTEN_PORT`.
    pub listen_port: Option<String>,
    /// `CRAFTEC_BOOTSTRAP_PEERS`, separated by commas.
    pub bootstrap_peers: Option<String>,
    /// `CRAFTEC_HEALTH_SCAN_CYCLE_SECS`.
    pub health_scan_cycle_secs: Option<String>,
}

/// The number that a variable sets, or the one before where it is not set or no number.
pub open spec fn number_or(value: Option<Seq<char>>, max: nat, before: nat) -> nat {
    match value {
        Some(text) => match parse::number(text, max) {
            Some(n) => n,
            None => before,
        },
        None => before,
    }
}

/// A variable as a sequence of characters.
pub open spec fn variable(value: Option<String>) -> Option<Seq<char>> {
    match value {
        Some(text) => Some(text@),
        None => None,
    }
}

fn parsed_or(value: &Option<String>, max: u64, before: u64) -> (n: u64)
    ensures
        n == number_or(variable(*value), max as nat, before as nat),
{
    match value {
        Some(text) => match parse::parse_number(text.as_str(), max) {
            Some(n) => n,
            None => before,
        },
        None => before,
    }
}

/// The configuration with what the environment sets. A port or an interval that is no
/// number changes nothing.
pub fn apply_env_overrides(config: NodeConfig, env: Overrides) -> (result: NodeConfig)
    ensures
        result.data_dir@ == (match env.data_dir {
            Some(dir) => dir@,
            None => config.data_dir@,
        }),
        result.listen_port == number_or(
            variable(env.listen_port),
            65_535,
            config.listen_port as nat,
        ),
        parse::texts(result.bootstrap_peers@) == (match env.bootstrap_peers {
            Some(list) => parse::filled(parse::fields(list@)),
            None => parse::texts(config.bootstrap_peers@),
        }),
        result.health_scan_cycle_secs == number_or(
            variable(env.health_scan_cycle_secs),
            u64::MAX as nat,
            config.health_scan_cycle_secs as nat,
        ),
        result.page_size == config.page_size,
        result.max_connections == config.max_connections,
{
    let port: u64 = parsed_or(&env.listen_port, 65_535, config.listen_port as u64);
    let secs: u64 = parsed_or(
        &env.health_scan_cycle_secs,
        u64::MAX,
        config.health_scan_cycle_secs,
    );
    let data_dir = match env.data_dir {
        Some(dir) => dir,
        None => config.data_dir,
    };
    let bootstrap_peers = match env.bootstrap_peers {
        Some(list) => parse::comma_list(list.as_str()),
        None => config.bootstrap_peers,
    };
    NodeConfig {
        data_dir,
        listen_port: port as u16,
        bootstrap_peers,
        health_scan_cycle_secs: secs,
        page_size: config.page_size,
        max_connections: config.max_connections,
    }
}

/// Where a client looks for the files of its node, given the directory that the environment
/// names and the text of the configuration file, where there are any: what the environment
/// says comes first, then the text under `data_dir` in the configuration, then `./data`.
pub fn data_dir(env: Option<String>, config: Option<String>) -> (dir: String)
    ensures
        dir@ == (match env {
            Some(d) => d@,
            None => match config {
                Some(text) => match json::json_text_under(text@, "data_dir"@) {
                    Some(d) => d,
                    None => "./data"@,
                },
                None => "./data"@,
            },
        }),
{
    let configured = match config {
        Some(text) => json::text_under(text.as_str(), "data_dir"),
        None => None,
    };
    client_data_dir(env, configured)
}

/// Where a client looks for the files of its node, given the directories that the
/// environment and the configuration name: what the environment says comes first, then what
/// the configuration says, then `./data`.
pub fn client_data_dir(env: Option<String>, configured: Option<String>) -> (dir: String)
    ensures
        dir@ == (match env {
            Some(d) => d@,
            None => match configured {
                Some(d) => d@,
                None => "./data"@,
            },
        }),
{
    match env {
        Some(d) => d,
        None => match configured {
            Some(d) => d,
            None => String::from_str("./data"),
        },
    }
}

/// On which port a client looks for its node.
pub fn client_port(env: Option<String>) -> (port: u16)
    ensures
        port == number_or(variable(env), 65_535, DEFAULT_LISTEN_PORT as nat),
{
    parsed_or(&env, 65_535, DEFAULT_LISTEN_PORT as u64) as u16
}

}
