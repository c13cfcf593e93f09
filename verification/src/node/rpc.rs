//! What a node does about a request of a client.

use crate::crypto::sign;
use crate::health::tracker;
use crate::health::tracker::PieceHolder;
use crate::health::tracker::PieceTracker;
use crate::net::swim;
use crate::net::swim::SwimMembership;
use crate::obj::error::ObjError;
use crate::outside::ed25519;
use crate::sql::database::ColumnValue;
use crate::sql::error::SqlError;
use crate::types::cid::Cid;
use crate::types::node_id::NodeId;
use crate::types::rpc::RpcRequest;
use crate::types::rpc::RpcResponse;
use crate::types::rpc::RpcValue;
use crate::types::text;
use vstd::prelude::*;
use vstd::string::*;

verus! {

/// What is to be done about a request.
pub enum RpcAction {
    /// To send an answer.
    Answer(RpcResponse),
    /// To count the stored objects.
    CountObjects,
    /// To store an object.
    Put(Vec<u8>),
    /// To fetch an object.
    Get(Cid),
    /// To list the stored objects.
    List,
    /// To run a query.
    Query(String),
    /// To execute a statement of a writer.
    Execute { sql: String, writer: NodeId },
}

/// The members that are alive.
pub open spec fn alive_keys(swim: &SwimMembership) -> Seq<Seq<u8>> {
    swim::keys_of_rank(swim.order(), swim.beliefs().members, 0)
}

/// Whether an answer is an error with a code and a message.
pub open spec fn is_error(answer: RpcResponse, code: u32, message: Seq<char>) -> bool {
    answer matches RpcResponse::Error { code: c, message: m } && c == code && m@ == message
}

/// Whether a value of an answer is that of a column.
pub open spec fn same_value(value: RpcValue, column: ColumnValue) -> bool {
    match column {
        ColumnValue::Null => value is Null,
        ColumnValue::Integer(n) => value == RpcValue::Integer(n),
        ColumnValue::Real { bits } => value == (RpcValue::Real { bits }),
        ColumnValue::Text(t) => value == RpcValue::Text(t),
        ColumnValue::Blob(b) => value == RpcValue::Blob(b),
    }
}

/// Whether a row of an answer has the values of a row of a query.
pub open spec fn same_row(values: Seq<RpcValue>, columns: Seq<ColumnValue>) -> bool {
    &&& values.len() == columns.len()
    &&& forall|i: int| 0 <= i < values.len() ==> same_value(#[trigger] values[i], columns[i])
}

/// Whether a statement carries a signature of its writer.
pub open spec fn sql_signed(sql: Seq<char>, writer: Seq<u8>, signature: Seq<u8>) -> bool {
    ed25519::ed25519_accepts(writer, vstd::utf8::encode_utf8(sql), signature)
}

/// Answers requests.
pub struct NodeRpcHandler {
    node_id: NodeId,
    start_time: u64,
}

impl NodeRpcHandler {
    /// This node.
    pub closed spec fn node(&self) -> NodeId {
        self.node_id
    }

    /// When the node was started, in milliseconds.
    pub closed spec fn started(&self) -> u64 {
        self.start_time
    }

    /// A handler of a node that is started now.
    pub fn new(node_id: NodeId, now: u64) -> (handler: NodeRpcHandler)
        ensures
            handler.node() == node_id,
            handler.started() == now,
    {
        NodeRpcHandler { node_id, start_time: now }
    }

    /// Handles a request: answers it, or says what is to be done first. A statement that its
    /// writer did not sign is refused.
    pub fn handle_request(
        &self,
        req: RpcRequest,
        swim: &SwimMembership,
        piece_tracker: &PieceTracker,
    ) -> (action: RpcAction)
        requires
            swim.wf(),
            piece_tracker.wf(),
            req matches RpcRequest::PieceInfo { cid } ==> tracker::total(
                tracker::holders_of(piece_tracker@, cid@),
            ) <= u32::MAX,
        ensures
            match req {
                RpcRequest::Status => action is CountObjects,
                RpcRequest::StorePut { data } => action == RpcAction::Put(data),
                RpcRequest::StoreGet { cid } => action == RpcAction::Get(cid),
                RpcRequest::StoreList => action is List,
                RpcRequest::SqlQuery { sql } => action == RpcAction::Query(sql),
                RpcRequest::SqlExecute { sql, writer, signature } => if sql_signed(
                    sql@,
                    writer@,
                    signature@,
                ) {
                    action == (RpcAction::Execute { sql, writer })
                } else {
                    action matches RpcAction::Answer(answer) && is_error(
                        answer,
                        403,
                        "invalid signature"@,
                    )
                },
                RpcRequest::Peers => {
                    &&& action matches RpcAction::Answer(RpcResponse::Peers { peers, count })
                    &&& peers@.map_values(|id: NodeId| id@) == alive_keys(swim)
                    &&& count == peers@.len()
                },
                RpcRequest::PieceInfo { cid } => {
                    &&& action matches RpcAction::Answer(
                        RpcResponse::PieceInfo { cid: c, available, k, holders },
                    )
                    &&& c == cid
                    &&& available == tracker::total(tracker::holders_of(piece_tracker@, cid@))
                    &&& k == (if piece_tracker@.ks.contains_key(cid@) {
                        Some(piece_tracker@.ks[cid@])
                    } else {
                        None
                    })
                    &&& holders@ == tracker::holders_of(piece_tracker@, cid@).map_values(
                        |h: PieceHolder| h.node_id,
                    )
                },
            },
    {
        match req {
            RpcRequest::Status => RpcAction::CountObjects,
            RpcRequest::StorePut { data } => RpcAction::Put(data),
            RpcRequest::StoreGet { cid } => RpcAction::Get(cid),
            RpcRequest::StoreList => RpcAction::List,
            RpcRequest::SqlQuery { sql } => RpcAction::Query(sql),
            RpcRequest::SqlExecute { sql, writer, signature } => {
                if sign::verify_signature(sql.as_str().as_bytes(), &signature, &writer) {
                    RpcAction::Execute { sql, writer }
                } else {
                    RpcAction::Answer(
                        RpcResponse::Error {
                            code: 403,
                            message: String::from_str("invalid signature"),
                        },
                    )
                }
            },
            RpcRequest::Peers => {
                let peers = swim.alive_members();
                let count: usize = peers.len();
                RpcAction::Answer(RpcResponse::Peers { peers, count })
            },
            RpcRequest::PieceInfo { cid } => {
                let available: u32 = piece_tracker.available_count(&cid);
                let k = piece_tracker.get_k(&cid);
                let holders = piece_tracker.holder_nodes(&cid);
                RpcAction::Answer(RpcResponse::PieceInfo { cid, available, k, holders })
            },
        }
    }

    /// The answer to a request for the status, given how many objects there are, if that
    /// could be counted.
    pub fn status_answer(
        &self,
        objects: Option<usize>,
        db_root_cid: Cid,
        swim: &SwimMembership,
        now: u64,
    ) -> (answer: RpcResponse)
        requires
            swim.wf(),
        ensures
            answer matches RpcResponse::Status {
                node_id,
                alive_peers,
                store_objects,
                db_root_cid: root,
                uptime_secs,
            } && {
                &&& node_id == self.node()
                &&& alive_peers == alive_keys(swim).len()
                &&& store_objects == (match objects {
                    Some(n) => n,
                    None => 0,
                })
                &&& root == db_root_cid
                &&& uptime_secs == (if now >= self.started() {
                    (now - self.started()) / 1000
                } else {
                    0
                })
            },
    {
        let store_objects: usize = match objects {
            Some(n) => n,
            None => 0,
        };
        let alive = swim.alive_members();
        proof {
            assert(alive@.map_values(|id: NodeId| id@).len() == alive@.len());
        }
        RpcResponse::Status {
            node_id: self.node_id,
            alive_peers: alive.len(),
            store_objects,
            db_root_cid,
            uptime_secs: now.saturating_sub(self.start_time) / 1000,
        }
    }

    /// The answer to a request to store an object.
    pub fn put_answer(stored: Result<Cid, ObjError>) -> (answer: RpcResponse)
        ensures
            match stored {
                Ok(cid) => answer == (RpcResponse::StorePut { cid }),
                Err(e) => is_error(answer, 500, "store put failed: "@ + e.words()),
            },
    {
        match stored {
            Ok(cid) => RpcResponse::StorePut { cid },
            Err(e) => failure(500, "store put failed: ", e.message()),
        }
    }

    /// The answer to a request for an object.
    pub fn get_answer(fetched: Result<Option<Vec<u8>>, ObjError>) -> (answer: RpcResponse)
        ensures
            match fetched {
                Ok(data) => answer == (RpcResponse::StoreGet { data }),
                Err(e) => is_error(answer, 500, "store get failed: "@ + e.words()),
            },
    {
        match fetched {
            Ok(data) => RpcResponse::StoreGet { data },
            Err(e) => failure(500, "store get failed: ", e.message()),
        }
    }

    /// The answer to a request for the list of objects.
    pub fn list_answer(listed: Result<Vec<Cid>, ObjError>) -> (answer: RpcResponse)
        ensures
            match listed {
                Ok(cids) => answer == (RpcResponse::StoreList { cids }),
                Err(e) => is_error(answer, 500, "store list failed: "@ + e.words()),
            },
    {
        match listed {
            Ok(cids) => RpcResponse::StoreList { cids },
            Err(e) => failure(500, "store list failed: ", e.message()),
        }
    }

    /// The answer to a query.
    pub fn query_answer(queried: Result<Vec<Vec<ColumnValue>>, SqlError>) -> (answer: RpcResponse)
        ensures
            match queried {
                Ok(rows) => answer matches RpcResponse::SqlQuery { rows: out } && out@.len()
                    == rows@.len() && forall|i: int|
                    0 <= i < out@.len() ==> same_row((#[trigger] out@[i])@, rows@[i]@),
                Err(e) => is_error(answer, 400, "query failed: "@ + e.words()),
            },
    {
        match queried {
            Ok(rows) => {
                let ghost all = rows@;
                let mut rest = rows;
                let mut back: Vec<Vec<RpcValue>> = Vec::new();
                while rest.len() > 0
                    invariant
                        back@.len() + rest@.len() == all.len(),
                        rest@ == all.take(rest@.len() as int),
                        forall|i: int|
                            0 <= i < back@.len() ==> same_row(
                                (#[trigger] back@[i])@,
                                all[all.len() - 1 - i]@,
                            ),
                    decreases rest@.len(),
                {
                    let ghost n = rest@.len() as int;
                    if let Some(row) = rest.pop() {
                        proof {
                            assert(row == all[n - 1]);
                            assert(all.take(n).drop_last() =~= all.take(n - 1));
                        }
                        back.push(convert_row(row));
                    }
                }
                let mut out: Vec<Vec<RpcValue>> = Vec::new();
                let ghost turned = back@;
                while back.len() > 0
                    invariant
                        out@.len() + back@.len() == all.len(),
                        back@ == turned.take(back@.len() as int),
                        turned.len() == all.len(),
                        forall|i: int|
                            0 <= i < turned.len() ==> same_row(
                                (#[trigger] turned[i])@,
                                all[all.len() - 1 - i]@,
                            ),
                        forall|i: int|
                            0 <= i < out@.len() ==> same_row((#[trigger] out@[i])@, all[i]@),
                    decreases back@.len(),
                {
                    let ghost n = back@.len() as int;
                    if let Some(row) = back.pop() {
                        proof {
                            assert(row == turned[n - 1]);
                            assert(turned.take(n).drop_last() =~= turned.take(n - 1));
                        }
                        out.push(row);
                    }
                }
                RpcResponse::SqlQuery { rows: out }
            },
            Err(e) => failure(400, "query failed: ", e.message()),
        }
    }

    /// The answer to a request to execute a statement, given the root afterwards.
    pub fn execute_answer(executed: Result<(), SqlError>, root_cid: Cid) -> (answer: RpcResponse)
        ensures
            match executed {
                Ok(_) => answer == (RpcResponse::SqlExecute { root_cid }),
                Err(e) => is_error(answer, 400, "execute failed: "@ + e.words()),
            },
    {
        match executed {
            Ok(_) => RpcResponse::SqlExecute { root_cid },
            Err(e) => failure(400, "execute failed: ", e.message()),
        }
    }
}

fn failure(code: u32, what: &str, why: String) -> (answer: RpcResponse)
    ensures
        is_error(answer, code, what@ + why@),
{
    RpcResponse::Error { code, message: text::join2(what, why.as_str()) }
}

fn convert(column: ColumnValue) -> (value: RpcValue)
    ensures
        same_value(value, column),
{
    match column {
        ColumnValue::Null => RpcValue::Null,
        ColumnValue::Integer(n) => RpcValue::Integer(n),
        ColumnValue::Real { bits } => RpcValue::Real { bits },
        ColumnValue::Text(t) => RpcValue::Text(t),
        ColumnValue::Blob(b) => RpcValue::Blob(b),
    }
}

fn convert_row(row: Vec<ColumnValue>) -> (values: Vec<RpcValue>)
    ensures
        same_row(values@, row@),
{
    let ghost all = row@;
    let mut rest = row;
    let mut back: Vec<RpcValue> = Vec::new();
    while rest.len() > 0
        invariant
            back@.len() + rest@.len() == all.len(),
            rest@ == all.take(rest@.len() as int),
            forall|i: int|
                0 <= i < back@.len() ==> same_value(
                    #[trigger] back@[i],
                    all[all.len() - 1 - i],
                ),
        decreases rest@.len(),
    {
        let ghost n = rest@.len() as int;
        if let Some(column) = rest.pop() {
            proof {
                assert(column == all[n - 1]);
                assert(all.take(n).drop_last() =~= all.take(n - 1));
            }
            back.push(convert(column));
        }
    }
    let mut values: Vec<RpcValue> = Vec::new();
    let ghost turned = back@;
    while back.len() > 0
        invariant
            values@.len() + back@.len() == all.len(),
            back@ == turned.take(back@.len() as int),
            turned.len() == all.len(),
            forall|i: int|
                0 <= i < turned.len() ==> same_value(
                    #[trigger] turned[i],
                    all[all.len() - 1 - i],
                ),
            forall|i: int| 0 <= i < values@.len() ==> same_value(#[trigger] values@[i], all[i]),
        decreases back@.len(),
    {
        let ghost n = back@.len() as int;
        if let Some(value) = back.pop() {
            proof {
                assert(value == turned[n - 1]);
                assert(turned.take(n).drop_last() =~= turned.take(n - 1));
            }
            values.push(value);
        }
    }
    values
}

}
