//! The client: what its arguments ask for, and how it prints answers.

use crate::crypto::sign::KeyStore;
use crate::net::endpoint;
use crate::node::rpc;
use crate::outside::ed25519;
use crate::outside::hexadecimal;
use crate::types::cid::Cid;
use crate::types::node_id::NodeId;
use crate::types::parse;
use crate::types::rpc::RpcRequest;
use crate::types::rpc::RpcResponse;
use crate::types::rpc::RpcValue;
use crate::types::text;
use vstd::prelude::*;
use vstd::string::*;

verus! {

/// How long a request may take, in milliseconds.
pub const RPC_TIMEOUT: u64 = 10_000;

/// How many bytes an answer has at most.
pub const MAX_RESPONSE_BYTES: usize = 4_194_304;

/// What a client can be asked for.
pub const USAGE: &'static str = "usage: craftec <status|store|query|execute|peers|pieces>\nsubcommands:\n  status              Node status (JSON)\n  store put           Read stdin, store, print CID\n  store get <cid>     Retrieve data, write to stdout\n  store list          List stored CIDs\n  query \"<sql>\"       SQL query (JSON rows)\n  execute \"<sql>\"     SQL execute (print root CID)\n  peers               Peer list (JSON)\n  pieces <cid>        Piece info (JSON)";

/// What a client is asked for.
#[derive(Debug, PartialEq, Eq)]
pub enum CliCommand {
    /// The status of the node.
    Status,
    /// To store what stands in the standard input.
    StorePut,
    /// An object.
    StoreGet { cid: Cid },
    /// The list of objects.
    StoreList,
    /// A query.
    Query { sql: String },
    /// A statement.
    Execute { sql: String },
    /// The peers.
    Peers,
    /// The pieces of a content.
    Pieces { cid: Cid },
}

/// What is wrong with an argument for an identifier, if anything.
pub open spec fn cid_complaint(args: Seq<Seq<char>>, at: int, usage: Seq<char>) -> Option<
    Seq<char>,
> {
    if args.len() <= at {
        Some(usage)
    } else if !endpoint::is_node_hex(args[at]) {
        Some("invalid CID: expected 64 hexadecimal digits"@)
    } else {
        None
    }
}

/// What is wrong with the arguments, if anything.
pub open spec fn complaint(args: Seq<Seq<char>>) -> Option<Seq<char>> {
    if args.len() == 0 {
        Some(USAGE@)
    } else if args[0] == "status"@ {
        None
    } else if args[0] == "store"@ {
        if args.len() == 1 {
            Some("usage: craftec store <put|get|list>"@)
        } else if args[1] == "put"@ {
            None
        } else if args[1] == "get"@ {
            cid_complaint(args, 2, "usage: craftec store get <cid>"@)
        } else if args[1] == "list"@ {
            None
        } else {
            Some("usage: craftec store <put|get|list>"@)
        }
    } else if args[0] == "query"@ {
        if args.len() == 1 {
            Some("usage: craftec query \"<sql>\""@)
        } else {
            None
        }
    } else if args[0] == "execute"@ {
        if args.len() == 1 {
            Some("usage: craftec execute \"<sql>\""@)
        } else {
            None
        }
    } else if args[0] == "peers"@ {
        None
    } else if args[0] == "pieces"@ {
        cid_complaint(args, 1, "usage: craftec pieces <cid>"@)
    } else {
        Some(USAGE@)
    }
}

/// Whether a command is what arguments without a complaint ask for.
pub open spec fn asked_for(args: Seq<Seq<char>>, command: CliCommand) -> bool {
    if args[0] == "status"@ {
        command is Status
    } else if args[0] == "store"@ {
        if args[1] == "put"@ {
            command is StorePut
        } else if args[1] == "get"@ {
            command matches CliCommand::StoreGet { cid } && cid@ == hexadecimal::hex_bytes(args[2])
        } else {
            command is StoreList
        }
    } else if args[0] == "query"@ {
        command matches CliCommand::Query { sql } && sql@ == args[1]
    } else if args[0] == "execute"@ {
        command matches CliCommand::Execute { sql } && sql@ == args[1]
    } else if args[0] == "peers"@ {
        command is Peers
    } else {
        command matches CliCommand::Pieces { cid } && cid@ == hexadecimal::hex_bytes(args[1])
    }
}

fn cid_argument(args: &[String], at: usize, usage: &str) -> (result: Result<Cid, String>)
    ensures
        match result {
            Ok(cid) => cid_complaint(parse::texts(args@), at as int, usage@) is None && cid@
                == hexadecimal::hex_bytes(parse::texts(args@)[at as int]),
            Err(e) => cid_complaint(parse::texts(args@), at as int, usage@) == Some(e@),
        },
{
    if args.len() <= at {
        return Err(String::from_str(usage));
    }
    match endpoint::parse_node_hex(args[at].as_str()) {
        Some(id) => Ok(Cid::from_bytes(id.bytes)),
        None => Err(String::from_str("invalid CID: expected 64 hexadecimal digits")),
    }
}

fn sql_argument(args: &[String], usage: &str) -> (result: Result<String, String>)
    requires
        args@.len() > 0,
    ensures
        match result {
            Ok(sql) => args@.len() > 1 && sql@ == args@[1]@,
            Err(e) => args@.len() == 1 && e@ == usage@,
        },
{
    if args.len() < 2 {
        return Err(String::from_str(usage));
    }
    Ok(String::from_str(args[1].as_str()))
}

/// Reads the arguments of a client.
pub fn parse_args(args: &[String]) -> (result: Result<CliCommand, String>)
    ensures
        match result {
            Ok(command) => complaint(parse::texts(args@)) is None && asked_for(
                parse::texts(args@),
                command,
            ),
            Err(e) => complaint(parse::texts(args@)) == Some(e@),
        },
{
    if args.len() == 0 {
        return Err(String::from_str(USAGE));
    }
    let ghost all = parse::texts(args@);
    assert(all[0] == args@[0]@);
    let first = args[0].as_str();
    if text::same_text(first, "status") {
        Ok(CliCommand::Status)
    } else if text::same_text(first, "store") {
        if args.len() == 1 {
            return Err(String::from_str("usage: craftec store <put|get|list>"));
        }
        assert(all[1] == args@[1]@);
        let second = args[1].as_str();
        if text::same_text(second, "put") {
            Ok(CliCommand::StorePut)
        } else if text::same_text(second, "get") {
            match cid_argument(args, 2, "usage: craftec store get <cid>") {
                Ok(cid) => Ok(CliCommand::StoreGet { cid }),
                Err(e) => Err(e),
            }
        } else if text::same_text(second, "list") {
            Ok(CliCommand::StoreList)
        } else {
            Err(String::from_str("usage: craftec store <put|get|list>"))
        }
    } else if text::same_text(first, "query") {
        match sql_argument(args, "usage: craftec query \"<sql>\"") {
            Ok(sql) => Ok(CliCommand::Query { sql }),
            Err(e) => Err(e),
        }
    } else if text::same_text(first, "execute") {
        match sql_argument(args, "usage: craftec execute \"<sql>\"") {
            Ok(sql) => Ok(CliCommand::Execute { sql }),
            Err(e) => Err(e),
        }
    } else if text::same_text(first, "peers") {
        Ok(CliCommand::Peers)
    } else if text::same_text(first, "pieces") {
        match cid_argument(args, 1, "usage: craftec pieces <cid>") {
            Ok(cid) => Ok(CliCommand::Pieces { cid }),
            Err(e) => Err(e),
        }
    } else {
        Err(String::from_str(USAGE))
    }
}

/// The request for a command, with the data of the standard input. A statement takes a
/// signature, so it has no request here.
pub fn request_of(command: CliCommand, input: Vec<u8>) -> (request: Option<RpcRequest>)
    ensures
        match command {
            CliCommand::Status => request == Some(RpcRequest::Status),
            CliCommand::StorePut => request == Some(RpcRequest::StorePut { data: input }),
            CliCommand::StoreGet { cid } => request == Some(RpcRequest::StoreGet { cid }),
            CliCommand::StoreList => request == Some(RpcRequest::StoreList),
            CliCommand::Query { sql } => request == Some(RpcRequest::SqlQuery { sql }),
            CliCommand::Execute { .. } => request is None,
            CliCommand::Peers => request == Some(RpcRequest::Peers),
            CliCommand::Pieces { cid } => request == Some(RpcRequest::PieceInfo { cid }),
        },
{
    match command {
        CliCommand::Status => Some(RpcRequest::Status),
        CliCommand::StorePut => Some(RpcRequest::StorePut { data: input }),
        CliCommand::StoreGet { cid } => Some(RpcRequest::StoreGet { cid }),
        CliCommand::StoreList => Some(RpcRequest::StoreList),
        CliCommand::Query { sql } => Some(RpcRequest::SqlQuery { sql }),
        CliCommand::Execute { .. } => None,
        CliCommand::Peers => Some(RpcRequest::Peers),
        CliCommand::Pieces { cid } => Some(RpcRequest::PieceInfo { cid }),
    }
}

/// The request to execute a statement, signed with the key of the node. The node accepts the
/// signature.
pub fn execute_request(sql: String, keystore: &KeyStore) -> (request: RpcRequest)
    ensures
        request matches RpcRequest::SqlExecute { sql: s, writer, signature } && {
            &&& s == sql
            &&& writer@ == ed25519::ed25519_public(keystore.secret())
            &&& signature@ == ed25519::ed25519_signature(
                keystore.secret(),
                vstd::utf8::encode_utf8(sql@),
            )
            &&& rpc::sql_signed(s@, writer@, signature@)
        },
{
    let signature = keystore.sign(sql.as_str().as_bytes());
    let writer = keystore.node_id();
    RpcRequest::SqlExecute { sql, writer, signature }
}

/// Reads the file with the identifier of the node.
pub fn parse_node_id(contents: &str) -> (result: Result<NodeId, String>)
    ensures
        ({
            let inner = parse::trimmed(contents@);
            if !hexadecimal::is_hex_text(inner) {
                result matches Err(e) && e@ == "invalid hex in node.id"@
            } else if inner.len() != 64 {
                result matches Err(e) && e@
                    == "node.id must contain 32 bytes (64 hex chars), got "@ + text::decimal(
                    inner.len() / 2,
                )
            } else {
                result matches Ok(id) && id@ == hexadecimal::hex_bytes(inner)
            }
        }),
{
    let inner = parse::trim(contents);
    match hexadecimal::hex_decode(inner) {
        None => Err(String::from_str("invalid hex in node.id")),
        Some(bytes) => match endpoint::parse_node_hex(inner) {
            Some(id) => Ok(id),
            None => {
                let mut words = String::from_str(
                    "node.id must contain 32 bytes (64 hex chars), got ",
                );
                text::push_decimal(&mut words, bytes.len() as u64);
                Err(words)
            },
        },
    }
}

/// A value that is printed as JSON.
#[derive(Debug)]
pub enum Json {
    /// No value.
    Null,
    /// A number that is not negative.
    Unsigned(u64),
    /// An integer.
    Integer(i64),
    /// A real number, by the bits of its double-precision form.
    Real { bits: u64 },
    /// A text.
    Text(String),
    /// A list.
    List(Vec<Json>),
    /// Named values.
    Object(Vec<(&'static str, Json)>),
}

/// What a client prints.
#[derive(Debug)]
pub enum Printout {
    /// A value, as JSON.
    Value(Json),
    /// Lines.
    Lines(Vec<String>),
    /// Bytes.
    Raw(Vec<u8>),
    /// A complaint, upon which the client fails.
    Failure(String),
}

/// Whether a value is a text.
pub open spec fn is_text(j: Json, t: Seq<char>) -> bool {
    j matches Json::Text(s) && s@ == t
}

/// Whether a value is the list of some identifiers.
pub open spec fn is_id_list(j: Json, ids: Seq<NodeId>) -> bool {
    j matches Json::List(list) && list@.len() == ids.len() && forall|i: int|
        0 <= i < ids.len() ==> is_text(#[trigger] list@[i], hexadecimal::hex_text(ids[i]@))
}

/// Whether a value is that of a column: bytes stand in hexadecimal.
pub open spec fn is_value(j: Json, value: RpcValue) -> bool {
    match value {
        RpcValue::Null => j is Null,
        RpcValue::Integer(n) => j == Json::Integer(n),
        RpcValue::Real { bits } => j == (Json::Real { bits }),
        RpcValue::Text(t) => is_text(j, t@),
        RpcValue::Blob(b) => is_text(j, hexadecimal::hex_text(b@)),
    }
}

/// Whether a value is a row.
pub open spec fn is_row(j: Json, row: Seq<RpcValue>) -> bool {
    j matches Json::List(list) && list@.len() == row.len() && forall|i: int|
        0 <= i < row.len() ==> is_value(#[trigger] list@[i], row[i])
}

/// Whether a value is a list of rows.
pub open spec fn is_rows(j: Json, rows: Seq<Vec<RpcValue>>) -> bool {
    j matches Json::List(list) && list@.len() == rows.len() && forall|i: int|
        0 <= i < rows.len() ==> is_row(#[trigger] list@[i], rows[i]@)
}

fn id_list(ids: &Vec<NodeId>) -> (j: Json)
    ensures
        is_id_list(j, ids@),
{
    let mut list: Vec<Json> = Vec::new();
    let mut i: usize = 0;
    while i < ids.len()
        invariant
            i <= ids@.len(),
            list@.len() == i,
            forall|k: int|
                0 <= k < i ==> is_text(#[trigger] list@[k], hexadecimal::hex_text(ids@[k]@)),
        decreases ids@.len() - i,
    {
        list.push(Json::Text(ids[i].to_hex()));
        i = i + 1;
    }
    Json::List(list)
}

fn value_json(value: &RpcValue) -> (j: Json)
    ensures
        is_value(j, *value),
{
    match value {
        RpcValue::Null => Json::Null,
        RpcValue::Integer(n) => Json::Integer(*n),
        RpcValue::Real { bits } => Json::Real { bits: *bits },
        RpcValue::Text(t) => Json::Text(String::from_str(t.as_str())),
        RpcValue::Blob(b) => Json::Text(hexadecimal::hex_encode(b.as_slice())),
    }
}

fn row_json(row: &Vec<RpcValue>) -> (j: Json)
    ensures
        is_row(j, row@),
{
    let mut list: Vec<Json> = Vec::new();
    let mut i: usize = 0;
    while i < row.len()
        invariant
            i <= row@.len(),
            list@.len() == i,
            forall|k: int| 0 <= k < i ==> is_value(#[trigger] list@[k], row@[k]),
        decreases row@.len() - i,
    {
        list.push(value_json(&row[i]));
        i = i + 1;
    }
    Json::List(list)
}

fn rows_json(rows: &Vec<Vec<RpcValue>>) -> (j: Json)
    ensures
        is_rows(j, rows@),
{
    let mut list: Vec<Json> = Vec::new();
    let mut i: usize = 0;
    while i < rows.len()
        invariant
            i <= rows@.len(),
            list@.len() == i,
            forall|k: int| 0 <= k < i ==> is_row(#[trigger] list@[k], rows@[k]@),
        decreases rows@.len() - i,
    {
        list.push(row_json(&rows[i]));
        i = i + 1;
    }
    Json::List(list)
}

fn cid_lines(cids: &Vec<Cid>) -> (lines: Vec<String>)
    ensures
        lines@.len() == cids@.len(),
        forall|i: int|
            0 <= i < lines@.len() ==> (#[trigger] lines@[i])@ == hexadecimal::hex_text(cids@[i]@),
{
    let mut lines: Vec<String> = Vec::new();
    let mut i: usize = 0;
    while i < cids.len()
        invariant
            i <= cids@.len(),
            lines@.len() == i,
            forall|k: int|
                0 <= k < i ==> (#[trigger] lines@[k])@ == hexadecimal::hex_text(cids@[k]@),
        decreases cids@.len() - i,
    {
        lines.push(cids[i].to_hex());
        i = i + 1;
    }
    lines
}

/// Whether a printout is one line with an identifier.
pub open spec fn one_cid(out: Printout, cid: Seq<u8>) -> bool {
    out matches Printout::Lines(lines) && lines@.len() == 1 && lines@[0]@ == hexadecimal::hex_text(
        cid,
    )
}

/// Whether a printout is what an answer is printed as.
pub open spec fn printed(out: Printout, resp: RpcResponse) -> bool {
    match resp {
        RpcResponse::Status { node_id, alive_peers, store_objects, db_root_cid, uptime_secs } => {
            &&& out matches Printout::Value(Json::Object(fields))
            &&& fields@.len() == 5
            &&& fields@[0].0@ == "node_id"@
            &&& is_text(fields@[0].1, hexadecimal::hex_text(node_id@))
            &&& fields@[1].0@ == "alive_peers"@
            &&& fields@[1].1 == Json::Unsigned(alive_peers as u64)
            &&& fields@[2].0@ == "store_objects"@
            &&& fields@[2].1 == Json::Unsigned(store_objects as u64)
            &&& fields@[3].0@ == "db_root_cid"@
            &&& is_text(fields@[3].1, hexadecimal::hex_text(db_root_cid@))
            &&& fields@[4].0@ == "uptime_secs"@
            &&& fields@[4].1 == Json::Unsigned(uptime_secs)
        },
        RpcResponse::StorePut { cid } => one_cid(out, cid@),
        RpcResponse::StoreGet { data } => match data {
            Some(bytes) => out == Printout::Raw(bytes),
            None => out matches Printout::Failure(why) && why@ == "not found"@,
        },
        RpcResponse::StoreList { cids } => out matches Printout::Lines(lines) && lines@.len()
            == cids@.len() && forall|i: int|
            0 <= i < lines@.len() ==> (#[trigger] lines@[i])@ == hexadecimal::hex_text(cids@[i]@),
        RpcResponse::SqlQuery { rows } => out matches Printout::Value(j) && is_rows(j, rows@),
        RpcResponse::SqlExecute { root_cid } => one_cid(out, root_cid@),
        RpcResponse::Peers { peers, count } => {
            &&& out matches Printout::Value(Json::Object(fields))
            &&& fields@.len() == 2
            &&& fields@[0].0@ == "count"@
            &&& fields@[0].1 == Json::Unsigned(count as u64)
            &&& fields@[1].0@ == "peers"@
            &&& is_id_list(fields@[1].1, peers@)
        },
        RpcResponse::PieceInfo { cid, available, k, holders } => {
            &&& out matches Printout::Value(Json::Object(fields))
            &&& fields@.len() == 4
            &&& fields@[0].0@ == "cid"@
            &&& is_text(fields@[0].1, hexadecimal::hex_text(cid@))
            &&& fields@[1].0@ == "available"@
            &&& fields@[1].1 == Json::Unsigned(available as u64)
            &&& fields@[2].0@ == "k"@
            &&& fields@[2].1 == (match k {
                Some(n) => Json::Unsigned(n as u64),
                None => Json::Null,
            })
            &&& fields@[3].0@ == "holders"@
            &&& is_id_list(fields@[3].1, holders@)
        },
        RpcResponse::Error { code, message } => out matches Printout::Failure(why) && why@
            == "error "@ + text::decimal(code as nat) + ": "@ + message@,
    }
}

/// What a client prints for an answer.
pub fn print_response(resp: RpcResponse) -> (out: Printout)
    ensures
        printed(out, resp),
{
    match resp {
        RpcResponse::Status { node_id, alive_peers, store_objects, db_root_cid, uptime_secs } => {
            let mut fields: Vec<(&'static str, Json)> = Vec::new();
            fields.push(("node_id", Json::Text(node_id.to_hex())));
            fields.push(("alive_peers", Json::Unsigned(alive_peers as u64)));
            fields.push(("store_objects", Json::Unsigned(store_objects as u64)));
            fields.push(("db_root_cid", Json::Text(db_root_cid.to_hex())));
            fields.push(("uptime_secs", Json::Unsigned(uptime_secs)));
            Printout::Value(Json::Object(fields))
        },
        RpcResponse::StorePut { cid } => {
            let mut lines: Vec<String> = Vec::new();
            lines.push(cid.to_hex());
            Printout::Lines(lines)
        },
        RpcResponse::StoreGet { data } => match data {
            Some(bytes) => Printout::Raw(bytes),
            None => Printout::Failure(String::from_str("not found")),
        },
        RpcResponse::StoreList { cids } => Printout::Lines(cid_lines(&cids)),
        RpcResponse::SqlQuery { rows } => Printout::Value(rows_json(&rows)),
        RpcResponse::SqlExecute { root_cid } => {
            let mut lines: Vec<String> = Vec::new();
            lines.push(root_cid.to_hex());
            Printout::Lines(lines)
        },
        RpcResponse::Peers { peers, count } => {
            let mut fields: Vec<(&'static str, Json)> = Vec::new();
            fields.push(("count", Json::Unsigned(count as u64)));
            fields.push(("peers", id_list(&peers)));
            Printout::Value(Json::Object(fields))
        },
        RpcResponse::PieceInfo { cid, available, k, holders } => {
            let size = match k {
                Some(n) => Json::Unsigned(n as u64),
                None => Json::Null,
            };
            let mut fields: Vec<(&'static str, Json)> = Vec::new();
            fields.push(("cid", Json::Text(cid.to_hex())));
            fields.push(("available", Json::Unsigned(available as u64)));
            fields.push(("k", size));
            fields.push(("holders", id_list(&holders)));
            Printout::Value(Json::Object(fields))
        },
        RpcResponse::Error { code, message } => {
            let mut why = text::with_number("error ", code as u64, ": ");
            why.append(message.as_str());
            Printout::Failure(why)
        },
    }
}

}
